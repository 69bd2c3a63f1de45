//! Inversion by Gaussian elimination: a shadow matrix, which starts as the
//! identity, takes every row operation that reduces the matrix to the identity.

use crate::congruence::lemma_inverse_of;
use crate::field::FieldElement;
use crate::matrix::{Matrix, columns, make_identity, rows, scalar_vec_mul, vec_sub};
use crate::gauss::{
    all_track, is_upper_triangular, lemma_back_substituted_tracks, lemma_eliminated_row_clears,
    lemma_elimination_defined, lemma_elimination_inverts, lemma_solved_rows_identity,
    lemma_triangular_form, lemma_triangular_rows_upper, lemma_triangular_tracks, tracks,
};
use crate::model::{
    grid, has_inverse, identity, inverse_matrix, inverse_of, is_matrix, is_square_matrix,
    leading_minors_nonzero, lemma_values_shape, matrix_values, pointwise_difference, product,
    scaled, skip_index, vector_values, width,
};
use vstd::prelude::*;

verus! {

/// `target` minus `factor` times `source`, element by element.
pub open spec fn reduced_row(p: int, factor: int, target: Seq<int>, source: Seq<int>) -> Seq<int> {
    pointwise_difference(p, target, scaled(p, factor, source))
}

/// The multiple of row `pivot` that clears `column` in row `i`.
pub open spec fn elimination_factor(
    p: int,
    m: Seq<Seq<int>>,
    column: int,
    pivot: int,
    i: int,
) -> int {
    (m[i][column] * inverse_of(p, m[pivot][column])) % p
}

/// Row `i` once `column` is cleared in it with row `pivot`; a row that holds
/// zero there stays as it is.
pub open spec fn eliminated_row(
    p: int,
    m: Seq<Seq<int>>,
    column: int,
    pivot: int,
    i: int,
) -> Seq<int> {
    if m[i][column] == 0 {
        m[i]
    } else {
        reduced_row(p, elimination_factor(p, m, column, pivot, i), m[i], m[pivot])
    }
}

/// Row `i` of the shadow once it has taken the operation that row `i` of `m`
/// took.
pub open spec fn eliminated_shadow_row(
    p: int,
    m: Seq<Seq<int>>,
    shadow: Seq<Seq<int>>,
    column: int,
    pivot: int,
    i: int,
) -> Seq<int> {
    if i == pivot || m[i][column] == 0 {
        shadow[i]
    } else {
        reduced_row(p, elimination_factor(p, m, column, pivot, i), shadow[i], shadow[pivot])
    }
}

/// The matrix after one elimination step: row `pivot` first, then the other
/// rows in their order, each with `column` cleared.
pub open spec fn eliminated(p: int, m: Seq<Seq<int>>, column: int, pivot: int) -> Seq<Seq<int>> {
    Seq::new(
        m.len(),
        |r: int|
            if r == 0 {
                m[pivot]
            } else {
                eliminated_row(p, m, column, pivot, skip_index(r - 1, pivot))
            },
    )
}

/// The shadow after one elimination step, its rows where they were.
pub open spec fn eliminated_shadow(
    p: int,
    m: Seq<Seq<int>>,
    shadow: Seq<Seq<int>>,
    column: int,
    pivot: int,
) -> Seq<Seq<int>> {
    Seq::new(shadow.len(), |i: int| eliminated_shadow_row(p, m, shadow, column, pivot, i))
}

/// No step of the reduction of `m` to triangular form, which starts at
/// `column`, meets a zero pivot. A step counts only where the pivot before it
/// has an inverse, as every pivot other than zero has in a field.
pub open spec fn pivots_nonzero(p: int, m: Seq<Seq<int>>, column: int) -> bool
    decreases m.len(),
{
    if m.len() <= 1 {
        true
    } else {
        m[0][column] != 0 && (has_inverse(p, m[0][column]) ==> pivots_nonzero(
            p,
            eliminated(p, m, column, 0).skip(1),
            column + 1,
        ))
    }
}

/// Every pivot of the reduction of `m` to triangular form has an inverse.
pub open spec fn pivots_invertible(p: int, m: Seq<Seq<int>>, column: int) -> bool
    decreases m.len(),
{
    if m.len() <= 1 {
        true
    } else {
        has_inverse(p, m[0][column]) && pivots_invertible(
            p,
            eliminated(p, m, column, 0).skip(1),
            column + 1,
        )
    }
}

/// The rows of `m` reduced to triangular form: the first row clears `column`
/// in all others, the second clears the next column in those below it, and
/// so on.
pub open spec fn triangular_rows(p: int, m: Seq<Seq<int>>, column: int) -> Seq<Seq<int>>
    decreases m.len(),
{
    if m.len() <= 1 {
        m
    } else {
        let e = eliminated(p, m, column, 0);
        seq![e[0]] + triangular_rows(p, e.skip(1), column + 1)
    }
}

/// The shadow after the row operations that reduce `m` to triangular form.
pub open spec fn triangular_shadow(
    p: int,
    m: Seq<Seq<int>>,
    shadow: Seq<Seq<int>>,
    column: int,
) -> Seq<Seq<int>>
    decreases m.len(),
{
    if m.len() <= 1 {
        shadow
    } else {
        let e = eliminated(p, m, column, 0);
        let s = eliminated_shadow(p, m, shadow, column, 0);
        seq![s[0]] + triangular_shadow(p, e.skip(1), s.skip(1), column + 1)
    }
}

/// Row `idx` of `u` and of the shadow `s` after `j` steps of back-substitution:
/// divided by the diagonal entry, then reduced by the finished rows
/// `u.len() - 1` down to `u.len() - j`, each taken with the entry that the row
/// holds in that column.
pub open spec fn back_substituted(
    p: int,
    u: Seq<Seq<int>>,
    s: Seq<Seq<int>>,
    idx: int,
    j: int,
) -> (Seq<int>, Seq<int>)
    decreases u.len() - idx, j,
{
    if j <= 0 {
        let inv = inverse_of(p, u[idx][idx]);
        (scaled(p, inv, u[idx]), scaled(p, inv, s[idx]))
    } else {
        let k = u.len() - j;
        let prev = back_substituted(p, u, s, idx, j - 1);
        if idx < k < u.len() {
            let done = back_substituted(p, u, s, k, u.len() - 1 - k);
            (
                reduced_row(p, prev.0[k], prev.0, done.0),
                reduced_row(p, prev.0[k], prev.1, done.1),
            )
        } else {
            prev
        }
    }
}

/// The rows of `u` after back-substitution.
pub open spec fn solved_rows(p: int, u: Seq<Seq<int>>, s: Seq<Seq<int>>) -> Seq<Seq<int>> {
    Seq::new(u.len(), |idx: int| back_substituted(p, u, s, idx, u.len() - 1 - idx).0)
}

/// The rows of the shadow after back-substitution.
pub open spec fn solved_shadow(p: int, u: Seq<Seq<int>>, s: Seq<Seq<int>>) -> Seq<Seq<int>> {
    Seq::new(u.len(), |idx: int| back_substituted(p, u, s, idx, u.len() - 1 - idx).1)
}

/// No diagonal entry of `m` is zero.
pub open spec fn diagonal_nonzero(m: Seq<Seq<int>>) -> bool {
    forall|i: int| 0 <= i < m.len() ==> #[trigger] m[i][i] != 0
}

/// Every diagonal entry of `m` has an inverse.
pub open spec fn diagonal_invertible(p: int, m: Seq<Seq<int>>) -> bool {
    forall|i: int| 0 <= i < m.len() ==> has_inverse(p, #[trigger] m[i][i])
}

/// What elimination makes of the identity as shadow of `m`.
pub open spec fn eliminated_inverse(p: int, m: Seq<Seq<int>>) -> Seq<Seq<int>> {
    solved_shadow(
        p,
        triangular_rows(p, m, 0),
        triangular_shadow(p, m, identity(m.len()), 0),
    )
}

/// A copy of a row.
fn copy_row<F: FieldElement>(row: &[F]) -> (r: Vec<F>)
    ensures
        r@ == row@,
{
    let mut r: Vec<F> = Vec::with_capacity(row.len());
    let mut k: usize = 0;
    while k < row.len()
        invariant
            k <= row.len(),
            r.len() == k,
            forall|t: int| 0 <= t < k ==> #[trigger] r[t] == row[t],
        decreases row.len() - k,
    {
        r.push(row[k]);
        k += 1;
    }
    assert(r@ =~= row@);
    r
}

/// A copy of all rows but the first.
fn rows_after_first<F: FieldElement>(m: &Matrix<F>) -> (r: Matrix<F>)
    requires
        m.len() >= 1,
    ensures
        grid(r@) == grid(m@).skip(1),
        matrix_values(r@) == matrix_values(m@).skip(1),
{
    let mut r: Matrix<F> = Vec::with_capacity(m.len() - 1);
    let mut i: usize = 1;
    while i < m.len()
        invariant
            1 <= i <= m.len(),
            r.len() == i - 1,
            forall|t: int| 0 <= t < i - 1 ==> (#[trigger] r[t])@ == m[t + 1]@,
        decreases m.len() - i,
    {
        r.push(copy_row(m[i].as_slice()));
        i += 1;
    }
    assert(grid(r@) =~~= grid(m@).skip(1));
    assert(matrix_values(r@) =~~= matrix_values(m@).skip(1));
    r
}

/// A copy of the rows, last row first.
fn rows_reversed<F: FieldElement>(m: &Matrix<F>) -> (r: Matrix<F>)
    ensures
        r.len() == m.len(),
        forall|t: int| 0 <= t < m.len() ==> (#[trigger] r[t])@ == m[m.len() - 1 - t]@,
{
    let n = m.len();
    let mut r: Matrix<F> = Vec::with_capacity(n);
    let mut i: usize = 0;
    while i < n
        invariant
            i <= n,
            n == m.len(),
            r.len() == i,
            forall|t: int| 0 <= t < i ==> (#[trigger] r[t])@ == m[n - 1 - t]@,
        decreases n - i,
    {
        r.push(copy_row(m[n - 1 - i].as_slice()));
        i += 1;
    }
    r
}

/// One elimination step: clears `column` in every row but `pivot_index` by
/// subtracting a multiple of that row, which comes first in the result, and
/// applies the same operations to the rows of `shadow`.
pub fn eliminate<F: FieldElement>(
    matrix: &Matrix<F>,
    column: usize,
    pivot_index: usize,
    shadow: &mut Matrix<F>,
) -> (r: Matrix<F>)
    requires
        is_matrix(grid(matrix@)),
        pivot_index < matrix.len(),
        column < width(grid(matrix@)),
        matrix_values(matrix@)[pivot_index as int][column as int] != 0,
        is_matrix(grid(old(shadow)@)),
        old(shadow).len() == matrix.len(),
    ensures
        matrix_values(r@) == eliminated(
            F::modulus(),
            matrix_values(matrix@),
            column as int,
            pivot_index as int,
        ),
        matrix_values(final(shadow)@) == eliminated_shadow(
            F::modulus(),
            matrix_values(matrix@),
            matrix_values(old(shadow)@),
            column as int,
            pivot_index as int,
        ),
        has_inverse(F::modulus(), matrix_values(matrix@)[pivot_index as int][column as int]),
        forall|i: int| 1 <= i < r.len() ==> (#[trigger] matrix_values(r@)[i])[column as int] == 0,
        is_matrix(grid(r@)),
        r.len() == matrix.len(),
        width(grid(r@)) == width(grid(matrix@)),
        is_matrix(grid(final(shadow)@)),
        final(shadow).len() == old(shadow).len(),
        width(grid(final(shadow)@)) == width(grid(old(shadow)@)),
{
    let ghost p = F::modulus();
    let ghost m = matrix_values(matrix@);
    let ghost s0 = matrix_values(shadow@);
    let ghost c = column as int;
    let ghost piv = pivot_index as int;
    let n = matrix.len();
    let ghost w = width(grid(matrix@));
    let ghost ws = width(grid(shadow@));
    let zero = F::zero();
    assert(grid(matrix@)[piv].len() == w);
    let pivot_val = matrix[pivot_index][column];
    assert(pivot_val.value() == m[piv][c]);
    let inv_pivot = pivot_val.inverse().unwrap();
    proof {
        F::lemma_modulus();
        inv_pivot.lemma_value();
        lemma_inverse_of(p, m[piv][c], inv_pivot.value());
    }
    let mut result: Matrix<F> = Vec::with_capacity(n);
    result.push(copy_row(matrix[pivot_index].as_slice()));
    assert forall|t: int| 0 <= t < n implies (#[trigger] shadow[t]).len() == ws by {
        assert(grid(shadow@)[t].len() == ws);
    }
    let mut i: usize = 0;
    while i < n
        invariant
            i <= n,
            n == matrix.len(),
            p == F::modulus(),
            m == matrix_values(matrix@),
            c == column as int,
            piv == pivot_index as int,
            pivot_index < n,
            w == width(grid(matrix@)),
            column < w,
            is_matrix(grid(matrix@)),
            zero.value() == 0,
            inv_pivot.value() == inverse_of(p, m[piv][c]),
            result.len() == 1 + if i <= pivot_index {
                i as int
            } else {
                i - 1
            },
            result[0]@ == matrix[piv]@,
            forall|r: int|
                1 <= r < result.len() ==> vector_values((#[trigger] result[r])@) == eliminated_row(
                    p,
                    m,
                    c,
                    piv,
                    skip_index(r - 1, piv),
                ),
            shadow.len() == n,
            forall|t: int| 0 <= t < n ==> (#[trigger] shadow[t]).len() == ws,
            forall|t: int|
                0 <= t < n ==> vector_values((#[trigger] shadow[t])@) == if t < i {
                    eliminated_shadow_row(p, m, s0, c, piv, t)
                } else {
                    s0[t]
                },
        decreases n - i,
    {
        if i != pivot_index {
            assert(grid(matrix@)[i as int].len() == w);
            assert(grid(matrix@)[piv].len() == w);
            let val = matrix[i][column];
            assert(val.value() == m[i as int][c]);
            assert(vector_values(matrix[i as int]@) == m[i as int]);
            assert(vector_values(matrix[piv]@) == m[piv]);
            if val.equals(&zero) {
                result.push(copy_row(matrix[i].as_slice()));
            } else {
                let factor = val.times(&inv_pivot);
                let scaled_pivot = scalar_vec_mul(factor, matrix[pivot_index].as_slice());
                assert(scaled_pivot.len() == vector_values(scaled_pivot@).len());
                let eliminated = vec_sub(matrix[i].as_slice(), scaled_pivot.as_slice());
                result.push(eliminated);
                assert(vector_values(shadow[piv]@) == s0[piv]);
                assert(vector_values(shadow[i as int]@) == s0[i as int]);
                let scaled_shadow_pivot = scalar_vec_mul(factor, shadow[pivot_index].as_slice());
                assert(scaled_shadow_pivot.len() == vector_values(scaled_shadow_pivot@).len());
                let shadow_row = vec_sub(shadow[i].as_slice(), scaled_shadow_pivot.as_slice());
                assert(shadow_row.len() == vector_values(shadow_row@).len());
                shadow.set(i, shadow_row);
            }
        }
        i += 1;
    }
    proof {
        assert(vector_values(result[0]@) == m[piv]);
        assert(matrix_values(result@) =~~= eliminated(p, m, c, piv));
        assert(matrix_values(shadow@) =~~= eliminated_shadow(p, m, s0, c, piv));
        assert forall|i: int| 1 <= i < result.len() implies (#[trigger] matrix_values(
            result@,
        )[i])[c] == 0 by {
            let src = skip_index(i - 1, piv);
            assert(grid(matrix@)[src].len() == w);
            assert(grid(matrix@)[piv].len() == w);
            assert(m[src].len() == w);
            assert(m[piv].len() == w);
            lemma_eliminated_row_clears(p, m, c, piv, src);
        }
        assert forall|t: int| 0 <= t < result.len() implies (#[trigger] grid(result@)[t]).len()
            == w by {
            assert(vector_values(result[t]@).len() == result[t]@.len());
            if t > 0 {
                let src = skip_index(t - 1, piv);
                assert(grid(matrix@)[src].len() == w);
                assert(m[src].len() == w);
            }
        }
        assert forall|t: int| 0 <= t < shadow.len() implies (#[trigger] grid(shadow@)[t]).len()
            == ws by {
            assert(shadow[t].len() == ws);
        }
    }
    result
}

/// Reduces a square matrix with at least one row to upper-triangular form:
/// each row in turn clears its column in the rows below it. `shadow` takes the
/// same row operations, so its rows track the rows of the result as they
/// tracked the rows of `matrix`.
pub fn upper_triangular<F: FieldElement>(
    matrix: &Matrix<F>,
    shadow: &mut Matrix<F>,
) -> (r: Matrix<F>)
    requires
        is_square_matrix(grid(matrix@)),
        matrix.len() >= 1,
        is_matrix(grid(old(shadow)@)),
        old(shadow).len() == matrix.len(),
        pivots_nonzero(F::modulus(), matrix_values(matrix@), 0),
    ensures
        matrix_values(r@) == triangular_rows(F::modulus(), matrix_values(matrix@), 0),
        matrix_values(final(shadow)@) == triangular_shadow(
            F::modulus(),
            matrix_values(matrix@),
            matrix_values(old(shadow)@),
            0,
        ),
        pivots_invertible(F::modulus(), matrix_values(matrix@), 0),
        is_upper_triangular(matrix_values(r@)),
        forall|orig: Seq<Seq<int>>| #[trigger]
            all_track(F::modulus(), orig, matrix_values(old(shadow)@), matrix_values(matrix@))
                ==> all_track(F::modulus(), orig, matrix_values(final(shadow)@), matrix_values(r@)),
        is_square_matrix(grid(r@)),
        r.len() == matrix.len(),
        is_matrix(grid(final(shadow)@)),
        final(shadow).len() == old(shadow).len(),
        width(grid(final(shadow)@)) == width(grid(old(shadow)@)),
{
    let ghost p = F::modulus();
    let ghost m = matrix_values(matrix@);
    let ghost s0 = matrix_values(shadow@);
    let ghost ws = width(grid(shadow@));
    let n = matrix.len();
    let mut result: Matrix<F> = Vec::with_capacity(n);
    let mut shadow_result: Matrix<F> = Vec::with_capacity(n);
    let mut curr: Matrix<F> = Vec::with_capacity(n);
    let mut i: usize = 0;
    while i < n
        invariant
            i <= n,
            n == matrix.len(),
            curr.len() == i,
            forall|t: int| 0 <= t < i ==> (#[trigger] curr[t])@ == matrix[t]@,
        decreases n - i,
    {
        curr.push(copy_row(matrix[i].as_slice()));
        i += 1;
    }
    assert(matrix_values(curr@) =~~= m);
    assert(grid(curr@) =~~= grid(matrix@));
    let mut column: usize = 0;
    let ghost mut evidence: Seq<int> = Seq::empty();
    while curr.len() > 1
        invariant
            n == matrix.len(),
            p == F::modulus(),
            curr.len() >= 1,
            column + curr.len() == n,
            is_matrix(grid(curr@)),
            width(grid(curr@)) == n,
            is_matrix(grid(shadow@)),
            shadow.len() == curr.len(),
            width(grid(shadow@)) == ws,
            result.len() == column,
            shadow_result.len() == column,
            forall|t: int| 0 <= t < column ==> (#[trigger] result[t]).len() == n,
            forall|t: int| 0 <= t < column ==> (#[trigger] shadow_result[t]).len() == ws,
            pivots_nonzero(p, matrix_values(curr@), column as int),
            triangular_rows(p, m, 0) == matrix_values(result@) + triangular_rows(
                p,
                matrix_values(curr@),
                column as int,
            ),
            triangular_shadow(p, m, s0, 0) == matrix_values(shadow_result@) + triangular_shadow(
                p,
                matrix_values(curr@),
                matrix_values(shadow@),
                column as int,
            ),
            pivots_invertible(p, matrix_values(curr@), column as int) ==> pivots_invertible(
                p,
                m,
                0,
            ),
        decreases curr.len(),
    {
        let ghost cur = matrix_values(curr@);
        let ghost sh = matrix_values(shadow@);
        let ghost res_before = matrix_values(result@);
        let ghost sres_before = matrix_values(shadow_result@);
        assert(grid(curr@)[0].len() == n);
        assert(cur[0][column as int] != 0);
        let step = eliminate(&curr, column, 0, shadow);
        assert(grid(step@)[0].len() == n);
        assert(grid(shadow@)[0].len() == ws);
        result.push(copy_row(step[0].as_slice()));
        shadow_result.push(copy_row(shadow[0].as_slice()));
        column += 1;
        curr = rows_after_first(&step);
        let ghost shadow_rows = grid(shadow@);
        let rest = rows_after_first(shadow);
        *shadow = rest;
        proof {
            let e = eliminated(p, cur, column - 1, 0);
            let s = eliminated_shadow(p, cur, sh, column - 1, 0);
            assert(matrix_values(result@) =~~= res_before + seq![e[0]]);
            assert(matrix_values(shadow_result@) =~~= sres_before + seq![s[0]]);
            assert(triangular_rows(p, m, 0) =~~= matrix_values(result@) + triangular_rows(
                p,
                matrix_values(curr@),
                column as int,
            ));
            assert(triangular_shadow(p, m, s0, 0) =~~= matrix_values(shadow_result@)
                + triangular_shadow(
                p,
                matrix_values(curr@),
                matrix_values(shadow@),
                column as int,
            ));
            assert forall|t: int| 0 <= t < curr.len() implies (#[trigger] grid(curr@)[t]).len()
                == n by {
                assert(grid(curr@)[t] == grid(step@)[t + 1]);
            }
            assert forall|t: int| 0 <= t < shadow.len() implies (#[trigger] grid(
                shadow@,
            )[t]).len() == ws by {
                assert(grid(shadow@)[t] == shadow_rows[t + 1]);
            }
        }
    }
    assert(grid(curr@)[0].len() == n);
    assert(grid(shadow@)[0].len() == ws);
    let ghost res_before = matrix_values(result@);
    let ghost sres_before = matrix_values(shadow_result@);
    let ghost cur = matrix_values(curr@);
    let ghost sh = matrix_values(shadow@);
    result.push(copy_row(curr[0].as_slice()));
    shadow_result.push(copy_row(shadow[0].as_slice()));
    *shadow = shadow_result;
    proof {
        assert(matrix_values(result@) =~~= res_before + cur);
        assert(matrix_values(shadow@) =~~= sres_before + sh);
        F::lemma_modulus();
        lemma_values_shape(matrix@);
        lemma_triangular_rows_upper(p, m);
        assert forall|orig: Seq<Seq<int>>| #[trigger]
            all_track(p, orig, s0, m) implies all_track(
            p,
            orig,
            matrix_values(shadow@),
            matrix_values(result@),
        ) by {
            lemma_triangular_tracks(p, orig, m, s0, 0);
        }
        assert forall|t: int| 0 <= t < result.len() implies (#[trigger] grid(result@)[t]).len()
            == n by {
            assert(result[t].len() == n);
        }
        assert forall|t: int| 0 <= t < shadow.len() implies (#[trigger] grid(shadow@)[t]).len()
            == ws by {
            assert(shadow[t].len() == ws);
        }
    }
    result
}

/// Back-substitution: from the last row up, divides each row of the square
/// matrix by its diagonal entry and subtracts from it the rows below that are
/// done, each times the entry above its diagonal. `shadow` takes the same row
/// operations, so its rows track the rows of the result as they tracked the
/// rows of `matrix`. An upper-triangular matrix ends as the identity.
pub fn solve<F: FieldElement>(matrix: &Matrix<F>, shadow: &mut Matrix<F>) -> (r: Matrix<F>)
    requires
        is_square_matrix(grid(matrix@)),
        is_matrix(grid(old(shadow)@)),
        old(shadow).len() == matrix.len(),
        diagonal_nonzero(matrix_values(matrix@)),
    ensures
        matrix_values(r@) == solved_rows(
            F::modulus(),
            matrix_values(matrix@),
            matrix_values(old(shadow)@),
        ),
        matrix_values(final(shadow)@) == solved_shadow(
            F::modulus(),
            matrix_values(matrix@),
            matrix_values(old(shadow)@),
        ),
        diagonal_invertible(F::modulus(), matrix_values(matrix@)),
        is_upper_triangular(matrix_values(matrix@)) ==> matrix_values(r@) == identity(
            matrix.len() as nat,
        ),
        forall|orig: Seq<Seq<int>>| #[trigger]
            all_track(F::modulus(), orig, matrix_values(old(shadow)@), matrix_values(matrix@))
                ==> all_track(F::modulus(), orig, matrix_values(final(shadow)@), matrix_values(r@)),
        is_square_matrix(grid(r@)),
        r.len() == matrix.len(),
        is_matrix(grid(final(shadow)@)),
        final(shadow).len() == old(shadow).len(),
        width(grid(final(shadow)@)) == width(grid(old(shadow)@)),
{
    let ghost p = F::modulus();
    let ghost m = matrix_values(matrix@);
    let ghost s0 = matrix_values(shadow@);
    let ghost ws = width(grid(shadow@));
    let size = rows(matrix);
    let mut result: Matrix<F> = Vec::new();
    let mut shadow_result: Matrix<F> = Vec::new();
    assert forall|t: int| 0 <= t < size implies (#[trigger] shadow[t]).len() == ws by {
        assert(grid(shadow@)[t].len() == ws);
    }
    assert forall|t: int| 0 <= t < size implies (#[trigger] matrix[t]).len() == size by {
        assert(grid(matrix@)[t].len() == size);
    }
    proof {
        F::lemma_modulus();
    }
    let mut i: usize = 0;
    while i < size
        invariant
            i <= size,
            size == matrix.len(),
            p == F::modulus(),
            p > 1,
            m == matrix_values(matrix@),
            s0 == matrix_values(shadow@),
            shadow.len() == size,
            diagonal_nonzero(m),
            forall|t: int| 0 <= t < size ==> (#[trigger] shadow[t]).len() == ws,
            forall|t: int| 0 <= t < size ==> (#[trigger] matrix[t]).len() == size,
            result.len() == i,
            shadow_result.len() == i,
            forall|t: int| 0 <= t < i ==> (#[trigger] result[t]).len() == size,
            forall|t: int| 0 <= t < i ==> (#[trigger] shadow_result[t]).len() == ws,
            forall|t: int|
                0 <= t < i ==> vector_values((#[trigger] result[t])@) == back_substituted(
                    p,
                    m,
                    s0,
                    size - 1 - t,
                    t,
                ).0,
            forall|t: int|
                0 <= t < i ==> vector_values((#[trigger] shadow_result[t])@) == back_substituted(
                    p,
                    m,
                    s0,
                    size - 1 - t,
                    t,
                ).1,
            forall|t: int| size - i <= t < size ==> has_inverse(p, #[trigger] m[t][t]),
        decreases size - i,
    {
        let idx = size - i - 1;
        assert(matrix[idx as int].len() == size);
        let val = matrix[idx][idx];
        assert(val.value() == m[idx as int][idx as int]);
        let inv = val.inverse().unwrap();
        proof {
            inv.lemma_value();
            lemma_inverse_of(p, m[idx as int][idx as int], inv.value());
            assert(vector_values(matrix[idx as int]@) == m[idx as int]);
            assert(vector_values(shadow[idx as int]@) == s0[idx as int]);
        }
        let mut normalized = scalar_vec_mul(inv, matrix[idx].as_slice());
        let mut shadow_normalized = scalar_vec_mul(inv, shadow[idx].as_slice());
        assert(normalized.len() == vector_values(normalized@).len());
        assert(shadow_normalized.len() == vector_values(shadow_normalized@).len());
        let mut j: usize = 0;
        while j < i
            invariant
                j <= i,
                i < size,
                idx == size - i - 1,
                size == matrix.len(),
                p == F::modulus(),
                result.len() == i,
                shadow_result.len() == i,
                forall|t: int| 0 <= t < i ==> (#[trigger] result[t]).len() == size,
                forall|t: int| 0 <= t < i ==> (#[trigger] shadow_result[t]).len() == ws,
                forall|t: int|
                    0 <= t < i ==> vector_values((#[trigger] result[t])@) == back_substituted(
                        p,
                        m,
                        s0,
                        size - 1 - t,
                        t,
                    ).0,
                forall|t: int|
                    0 <= t < i ==> vector_values((#[trigger] shadow_result[t])@)
                        == back_substituted(p, m, s0, size - 1 - t, t).1,
                m.len() == size,
                normalized.len() == size,
                shadow_normalized.len() == ws,
                vector_values(normalized@) == back_substituted(p, m, s0, idx as int, j as int).0,
                vector_values(shadow_normalized@) == back_substituted(
                    p,
                    m,
                    s0,
                    idx as int,
                    j as int,
                ).1,
            decreases i - j,
        {
            let k = size - j - 1;
            let val = normalized[k];
            assert(val.value() == vector_values(normalized@)[k as int]);
            let subtracted = scalar_vec_mul(val, result[j].as_slice());
            let result_subtracted = scalar_vec_mul(val, shadow_result[j].as_slice());
            assert(subtracted.len() == vector_values(subtracted@).len());
            assert(result_subtracted.len() == vector_values(result_subtracted@).len());
            normalized = vec_sub(normalized.as_slice(), subtracted.as_slice());
            shadow_normalized = vec_sub(shadow_normalized.as_slice(), result_subtracted.as_slice());
            assert(normalized.len() == vector_values(normalized@).len());
            assert(shadow_normalized.len() == vector_values(shadow_normalized@).len());
            j += 1;
        }
        result.push(normalized);
        shadow_result.push(shadow_normalized);
        i += 1;
    }
    let result = rows_reversed(&result);
    let shadow_result = rows_reversed(&shadow_result);
    *shadow = shadow_result;
    proof {
        assert(matrix_values(result@) =~~= solved_rows(p, m, s0));
        assert(matrix_values(shadow@) =~~= solved_shadow(p, m, s0));
        lemma_values_shape(matrix@);
        if is_upper_triangular(m) {
            lemma_solved_rows_identity(p, m, s0);
        }
        assert forall|orig: Seq<Seq<int>>| #[trigger]
            all_track(p, orig, s0, m) implies all_track(
            p,
            orig,
            matrix_values(shadow@),
            matrix_values(result@),
        ) by {
            assert forall|r: int| 0 <= r < m.len() implies #[trigger] tracks(
                p,
                orig,
                solved_shadow(p, m, s0)[r],
                solved_rows(p, m, s0)[r],
            ) by {
                lemma_back_substituted_tracks(p, orig, m, s0, r, m.len() - 1 - r);
            }
        }
        assert forall|t: int| 0 <= t < result.len() implies (#[trigger] grid(result@)[t]).len()
            == size by {
            assert(result[t].len() == size);
        }
        assert forall|t: int| 0 <= t < shadow.len() implies (#[trigger] grid(shadow@)[t]).len()
            == ws by {
            assert(shadow[t].len() == ws);
        }
    }
    result
}

/// The inverse of a square matrix by Gaussian elimination without row
/// exchanges, for a matrix with at least one row whose leading blocks all
/// have determinants other than zero: the matrices that meet no zero pivot.
/// The result is the adjugate over the determinant, and its product with the
/// matrix, in either order, is the identity.
pub fn invert<F: FieldElement>(matrix: &Matrix<F>) -> (r: Option<Matrix<F>>)
    requires
        is_square_matrix(grid(matrix@)),
        matrix.len() >= 1,
        leading_minors_nonzero(F::modulus(), matrix_values(matrix@)),
    ensures
        r is Some,
        matrix_values(r.unwrap()@) == inverse_matrix(F::modulus(), matrix_values(matrix@)),
        product(F::modulus(), matrix_values(matrix@), matrix_values(r.unwrap()@)) == identity(
            matrix.len() as nat,
        ),
        product(F::modulus(), matrix_values(r.unwrap()@), matrix_values(matrix@)) == identity(
            matrix.len() as nat,
        ),
{
    let ghost p = F::modulus();
    let ghost m = matrix_values(matrix@);
    proof {
        F::lemma_modulus();
        lemma_values_shape(matrix@);
        lemma_elimination_defined(p, m);
    }
    let mut shadow = make_identity::<F>(columns(matrix));
    let ut = upper_triangular(matrix, &mut shadow);
    proof {
        lemma_triangular_form(p, m);
    }
    let _res = solve(&ut, &mut shadow);
    proof {
        lemma_elimination_inverts(p, m);
    }
    Some(shadow)
}

} // verus!
