//! Why elimination inverts: every row of the shadow, times the matrix that
//! elimination started from, is the row that it stands beside.

use crate::congruence::{
    congruent, lemma_congruent_mul, lemma_congruent_reduced, lemma_congruent_sub,
    lemma_has_inverse_congruent, lemma_has_inverse_product,
};
use crate::dots::{
    lemma_dot_combination, lemma_dot_commutes, lemma_dot_congruent, lemma_dot_is_sum,
    lemma_dot_scale, lemma_dot_unit,
};
use crate::elimination::{
    back_substituted, diagonal_invertible, diagonal_nonzero, eliminated, eliminated_inverse,
    eliminated_row, eliminated_shadow, elimination_factor, pivots_invertible, pivots_nonzero,
    reduced_row, solved_rows, triangular_rows, triangular_shadow,
};
use crate::laplace::{
    lemma_det_single, lemma_inverse_matrix_right, lemma_last_row, lemma_row_operation,
};
use crate::model::{
    cofactor_of, column, common_len, det, dot, dot_prefix, has_inverse, identity,
    inverse_matrix, inverse_of, is_field_order, is_inverse_of, is_square_matrix, leading,
    leading_minors_nonzero, minor_determinant, minor_of, product, scaled, skip_index,
};
use crate::sums::{
    lemma_sum_by_columns_is_sum, lemma_sum_by_rows_is_sum, lemma_sum_column_is_sum,
    lemma_sum_exchange, lemma_sum_row_is_sum, lemma_sum_scale, sum_column, sum_row,
};
use vstd::arithmetic::div_mod::{
    lemma_mod_bound, lemma_mod_twice, lemma_mul_mod_noop_left, lemma_mul_mod_noop_right,
    lemma_small_mod, lemma_sub_mod_noop_right,
};
use vstd::prelude::*;

verus! {

/// The row vector `s` times `m` is congruent to `row`.
pub open spec fn tracks(p: int, m: Seq<Seq<int>>, s: Seq<int>, row: Seq<int>) -> bool {
    &&& s.len() == m.len()
    &&& row.len() == m.len()
    &&& forall|j: int|
        0 <= j < m.len() ==> congruent(
            p,
            dot_prefix(column(m, j), s, m.len() as int),
            #[trigger] row[j],
        )
}

/// Every row of `shadow` tracks the row of `rows` beside it.
pub open spec fn all_track(
    p: int,
    m: Seq<Seq<int>>,
    shadow: Seq<Seq<int>>,
    rows: Seq<Seq<int>>,
) -> bool {
    &&& shadow.len() == rows.len()
    &&& forall|r: int| 0 <= r < rows.len() ==> #[trigger] tracks(p, m, shadow[r], rows[r])
}

/// Every entry below the diagonal is zero.
pub open spec fn is_upper_triangular(m: Seq<Seq<int>>) -> bool {
    forall|r: int, j: int| 0 <= j < r < m.len() ==> #[trigger] m[r][j] == 0
}

/// Every entry is reduced modulo `p`.
pub open spec fn is_reduced(p: int, v: Seq<int>) -> bool {
    forall|k: int| 0 <= k < v.len() ==> 0 <= #[trigger] v[k] < p
}

/// A row of the identity tracks the same row of the matrix.
pub proof fn lemma_identity_tracks(p: int, m: Seq<Seq<int>>, r: int)
    requires
        is_square_matrix(m),
        0 <= r < m.len(),
    ensures
        tracks(p, m, identity(m.len())[r], m[r]),
{
    let n = m.len() as int;
    let e = identity(m.len())[r];
    assert(m[r].len() == n);
    assert forall|j: int| 0 <= j < n implies congruent(
        p,
        dot_prefix(column(m, j), e, n),
        #[trigger] m[r][j],
    ) by {
        lemma_dot_unit(column(m, j), e, n, r);
    }
}

/// Rows that track stay so when one is reduced by a multiple of another.
pub proof fn lemma_reduced_tracks(
    p: int,
    m: Seq<Seq<int>>,
    f: int,
    sa: Seq<int>,
    a: Seq<int>,
    sb: Seq<int>,
    b: Seq<int>,
)
    requires
        p > 0,
        tracks(p, m, sa, a),
        tracks(p, m, sb, b),
    ensures
        tracks(p, m, reduced_row(p, f, sa, sb), reduced_row(p, f, a, b)),
        is_reduced(p, reduced_row(p, f, sa, sb)),
{
    let n = m.len() as int;
    let ns = reduced_row(p, f, sa, sb);
    let na = reduced_row(p, f, a, b);
    let exact = Seq::new(m.len(), |k: int| sa[k] - f * sb[k]);
    assert forall|k: int| 0 <= k < n implies congruent(p, #[trigger] ns[k], exact[k]) by {
        lemma_sub_mod_noop_right(sa[k], f * sb[k], p);
        lemma_mod_twice(sa[k] - (f * sb[k]) % p, p);
    }
    assert forall|j: int| 0 <= j < n implies congruent(
        p,
        dot_prefix(column(m, j), ns, n),
        #[trigger] na[j],
    ) by {
        let col = column(m, j);
        lemma_dot_congruent(p, col, ns, col, exact, n);
        lemma_dot_combination(f, col, sa, sb, exact, n);
        let da = dot_prefix(col, sa, n);
        let db = dot_prefix(col, sb, n);
        assert(congruent(p, da, a[j]));
        assert(congruent(p, db, b[j]));
        lemma_congruent_mul(p, f, f, db, b[j]);
        lemma_congruent_sub(p, da, a[j], f * db, f * b[j]);
        lemma_sub_mod_noop_right(a[j], f * b[j], p);
        lemma_mod_twice(a[j] - (f * b[j]) % p, p);
    }
    assert forall|k: int| 0 <= k < ns.len() implies 0 <= #[trigger] ns[k] < p by {
        lemma_mod_bound(sa[k] - (f * sb[k]) % p, p);
    }
}

/// Rows that track stay so when both are scaled.
pub proof fn lemma_scaled_tracks(p: int, m: Seq<Seq<int>>, c: int, sa: Seq<int>, a: Seq<int>)
    requires
        p > 0,
        tracks(p, m, sa, a),
    ensures
        tracks(p, m, scaled(p, c, sa), scaled(p, c, a)),
        is_reduced(p, scaled(p, c, sa)),
{
    let n = m.len() as int;
    let ns = scaled(p, c, sa);
    let na = scaled(p, c, a);
    let exact = Seq::new(m.len(), |k: int| c * sa[k]);
    assert forall|k: int| 0 <= k < n implies congruent(p, #[trigger] ns[k], exact[k]) by {
        lemma_mod_twice(c * sa[k], p);
    }
    assert forall|j: int| 0 <= j < n implies congruent(
        p,
        dot_prefix(column(m, j), ns, n),
        #[trigger] na[j],
    ) by {
        let col = column(m, j);
        lemma_dot_congruent(p, col, ns, col, exact, n);
        lemma_dot_scale(c, col, sa, exact, n);
        let da = dot_prefix(col, sa, n);
        assert(congruent(p, da, a[j]));
        lemma_congruent_mul(p, c, c, da, a[j]);
        lemma_mod_twice(c * a[j], p);
    }
    assert forall|k: int| 0 <= k < ns.len() implies 0 <= #[trigger] ns[k] < p by {
        lemma_mod_bound(c * sa[k], p);
    }
}

/// One elimination step keeps the shadow tracking.
pub proof fn lemma_eliminated_tracks(
    p: int,
    orig: Seq<Seq<int>>,
    m: Seq<Seq<int>>,
    s: Seq<Seq<int>>,
    c: int,
)
    requires
        p > 0,
        all_track(p, orig, s, m),
        m.len() >= 1,
    ensures
        all_track(p, orig, eliminated_shadow(p, m, s, c, 0), eliminated(p, m, c, 0)),
{
    let e = eliminated(p, m, c, 0);
    let es = eliminated_shadow(p, m, s, c, 0);
    assert forall|r: int| 0 <= r < e.len() implies #[trigger] tracks(p, orig, es[r], e[r]) by {
        assert(tracks(p, orig, s[r], m[r]));
        assert(tracks(p, orig, s[0], m[0]));
        if r > 0 {
            assert(skip_index(r - 1, 0) == r);
            if m[r][c] != 0 {
                lemma_reduced_tracks(
                    p,
                    orig,
                    elimination_factor(p, m, c, 0, r),
                    s[r],
                    m[r],
                    s[0],
                    m[0],
                );
            }
        }
    }
}

/// The reduction to triangular form keeps the shadow tracking.
pub proof fn lemma_triangular_tracks(
    p: int,
    orig: Seq<Seq<int>>,
    m: Seq<Seq<int>>,
    s: Seq<Seq<int>>,
    c: int,
)
    requires
        p > 0,
        all_track(p, orig, s, m),
    ensures
        all_track(p, orig, triangular_shadow(p, m, s, c), triangular_rows(p, m, c)),
    decreases m.len(),
{
    if m.len() > 1 {
        let e = eliminated(p, m, c, 0);
        let es = eliminated_shadow(p, m, s, c, 0);
        lemma_eliminated_tracks(p, orig, m, s, c);
        let e1 = e.skip(1);
        let es1 = es.skip(1);
        assert forall|r: int| 0 <= r < e1.len() implies #[trigger] tracks(
            p,
            orig,
            es1[r],
            e1[r],
        ) by {
            assert(tracks(p, orig, es[r + 1], e[r + 1]));
        }
        lemma_triangular_tracks(p, orig, e1, es1, c + 1);
        let tr = triangular_rows(p, e1, c + 1);
        let ts = triangular_shadow(p, e1, es1, c + 1);
        let rows = triangular_rows(p, m, c);
        let shadow = triangular_shadow(p, m, s, c);
        assert(rows == seq![e[0]] + tr);
        assert(shadow == seq![es[0]] + ts);
        assert forall|r: int| 0 <= r < rows.len() implies #[trigger] tracks(
            p,
            orig,
            shadow[r],
            rows[r],
        ) by {
            if r == 0 {
                assert(tracks(p, orig, es[0], e[0]));
            } else {
                assert(tracks(p, orig, ts[r - 1], tr[r - 1]));
            }
        }
    }
}

/// Back-substitution keeps the shadow tracking, and leaves its rows reduced.
pub proof fn lemma_back_substituted_tracks(
    p: int,
    orig: Seq<Seq<int>>,
    u: Seq<Seq<int>>,
    s: Seq<Seq<int>>,
    idx: int,
    j: int,
)
    requires
        p > 0,
        all_track(p, orig, s, u),
        0 <= idx < u.len(),
        0 <= j <= u.len() - 1 - idx,
    ensures
        tracks(
            p,
            orig,
            back_substituted(p, u, s, idx, j).1,
            back_substituted(p, u, s, idx, j).0,
        ),
        is_reduced(p, back_substituted(p, u, s, idx, j).1),
    decreases u.len() - idx, j,
{
    assert(tracks(p, orig, s[idx], u[idx]));
    if j <= 0 {
        lemma_scaled_tracks(p, orig, inverse_of(p, u[idx][idx]), s[idx], u[idx]);
    } else {
        let k = u.len() - j;
        lemma_back_substituted_tracks(p, orig, u, s, idx, j - 1);
        lemma_back_substituted_tracks(p, orig, u, s, k, u.len() - 1 - k);
        let prev = back_substituted(p, u, s, idx, j - 1);
        let done = back_substituted(p, u, s, k, u.len() - 1 - k);
        lemma_reduced_tracks(p, orig, prev.0[k], prev.1, prev.0, done.1, done.0);
    }
}

/// Back-substitution turns an upper-triangular matrix whose diagonal entries
/// have inverses into the identity.
pub proof fn lemma_back_substituted_rows(
    p: int,
    u: Seq<Seq<int>>,
    s: Seq<Seq<int>>,
    idx: int,
    j: int,
)
    requires
        p > 1,
        is_square_matrix(u),
        is_upper_triangular(u),
        diagonal_invertible(p, u),
        0 <= idx < u.len(),
        0 <= j <= u.len() - 1 - idx,
    ensures
        back_substituted(p, u, s, idx, j).0.len() == u.len(),
        back_substituted(p, u, s, idx, j).0[idx] == 1,
        forall|t: int| 0 <= t < idx ==> #[trigger] back_substituted(p, u, s, idx, j).0[t] == 0,
        forall|t: int|
            u.len() - j <= t < u.len() ==> #[trigger] back_substituted(p, u, s, idx, j).0[t] == 0,
    decreases u.len() - idx, j,
{
    let n = u.len() as int;
    let w = back_substituted(p, u, s, idx, j).0;
    lemma_small_mod(0, p as nat);
    lemma_small_mod(1, p as nat);
    assert(u[idx].len() == n);
    if j <= 0 {
        let d = u[idx][idx];
        let inv = inverse_of(p, d);
        assert(has_inverse(p, d));
        assert(is_inverse_of(p, d, inv));
        assert(inv * d == d * inv) by (nonlinear_arith);
        assert forall|t: int| 0 <= t < idx implies #[trigger] w[t] == 0 by {
            assert(u[idx][t] == 0);
            assert(inv * 0 == 0) by (nonlinear_arith);
        }
    } else {
        let k = n - j;
        lemma_back_substituted_rows(p, u, s, idx, j - 1);
        lemma_back_substituted_rows(p, u, s, k, n - 1 - k);
        let prev = back_substituted(p, u, s, idx, j - 1).0;
        let done = back_substituted(p, u, s, k, n - 1 - k).0;
        let f = prev[k];
        assert(w == reduced_row(p, f, prev, done));
        assert forall|t: int| 0 <= t < n && t != k implies (f * done[t]) % p == 0 by {
            assert(done[t] == 0);
            assert(f * 0 == 0) by (nonlinear_arith);
        }
        assert(w[k] == 0) by {
            assert(done[k] == 1);
            assert(f * 1 == f) by (nonlinear_arith);
            lemma_sub_mod_noop_right(f, f, p);
        }
        assert(w[idx] == 1) by {
            assert(prev[idx] == 1);
            assert((f * done[idx]) % p == 0);
        }
        assert forall|t: int| 0 <= t < idx implies #[trigger] w[t] == 0 by {
            assert(prev[t] == 0);
            assert((f * done[t]) % p == 0);
        }
        assert forall|t: int| n - j <= t < n implies #[trigger] w[t] == 0 by {
            if t != k {
                assert(prev[t] == 0);
                assert((f * done[t]) % p == 0);
            }
        }
    }
}

/// The rows that back-substitution leaves of an upper-triangular matrix are
/// those of the identity.
pub proof fn lemma_solved_rows_identity(p: int, u: Seq<Seq<int>>, s: Seq<Seq<int>>)
    requires
        p > 1,
        is_square_matrix(u),
        is_upper_triangular(u),
        diagonal_invertible(p, u),
    ensures
        solved_rows(p, u, s) == identity(u.len()),
{
    let n = u.len() as int;
    let r = solved_rows(p, u, s);
    assert forall|idx: int| 0 <= idx < n implies #[trigger] r[idx] =~= identity(u.len())[idx] by {
        lemma_back_substituted_rows(p, u, s, idx, n - 1 - idx);
    }
    assert(r =~= identity(u.len()));
}

/// A row vector times a matrix times a column vector, in either grouping.
pub proof fn lemma_triple_product(t: Seq<int>, m: Seq<Seq<int>>, a: Seq<int>)
    ensures
        dot_prefix(
            t,
            Seq::new(m.len(), |j: int| dot_prefix(m[j], a, m.len() as int)),
            m.len() as int,
        ) == dot_prefix(
            Seq::new(m.len(), |k: int| dot_prefix(t, column(m, k), m.len() as int)),
            a,
            m.len() as int,
        ),
{
    let n = m.len() as int;
    let right = Seq::new(m.len(), |j: int| dot_prefix(m[j], a, n));
    let left = Seq::new(m.len(), |k: int| dot_prefix(t, column(m, k), n));
    let f2 = |j: int, k: int| t[j] * (m[j][k] * a[k]);
    let by_row = |j: int| t[j] * right[j];
    let by_column = |k: int| left[k] * a[k];
    assert forall|j: int| 0 <= j < n implies #[trigger] by_row(j) == sum_row(f2, j, n) by {
        let g = |k: int| m[j][k] * a[k];
        lemma_dot_is_sum(m[j], a, g, n);
        let fk = |k: int| t[j] * (m[j][k] * a[k]);
        lemma_sum_scale(t[j], g, fk, n);
        assert forall|k: int| 0 <= k < n implies #[trigger] fk(k) == f2(j, k) by {}
        lemma_sum_row_is_sum(f2, fk, j, n);
    }
    lemma_sum_by_rows_is_sum(f2, by_row, n, n);
    lemma_dot_is_sum(t, right, by_row, n);
    assert forall|k: int| 0 <= k < n implies #[trigger] by_column(k) == sum_column(
        f2,
        k,
        n,
    ) by {
        let col = column(m, k);
        let g = |j: int| t[j] * col[j];
        lemma_dot_is_sum(t, col, g, n);
        let fj = |j: int| t[j] * (m[j][k] * a[k]);
        assert forall|j: int| 0 <= j < n implies #[trigger] fj(j) == a[k] * g(j) by {
            let x = t[j];
            let y = m[j][k];
            let z = a[k];
            assert(col[j] == y);
            assert(x * (y * z) == z * (x * y)) by (nonlinear_arith);
        }
        lemma_sum_scale(a[k], g, fj, n);
        assert forall|j: int| 0 <= j < n implies #[trigger] fj(j) == f2(j, k) by {}
        lemma_sum_column_is_sum(f2, fj, k, n);
        let x = left[k];
        let z = a[k];
        assert(x * z == z * x) by (nonlinear_arith);
    }
    lemma_sum_by_columns_is_sum(f2, by_column, n, n);
    lemma_dot_is_sum(left, a, by_column, n);
    lemma_sum_exchange(f2, n, n);
}

/// A leading block of a square matrix is square.
pub proof fn lemma_leading_square(x: Seq<Seq<int>>, k: int)
    requires
        is_square_matrix(x),
        0 <= k <= x.len(),
    ensures
        is_square_matrix(leading(x, k)),
        leading(x, k).len() == k,
{
    let y = leading(x, k);
    assert forall|r: int| 0 <= r < y.len() implies (#[trigger] y[r]).len() == k by {
        assert(x[r].len() == x.len());
    }
    if k > 0 {
        assert(y[0].len() == k);
    }
}

/// The entries below the diagonal in the columns before `c` are zero.
pub open spec fn is_cleared_before(x: Seq<Seq<int>>, c: int) -> bool {
    forall|r: int, j: int| 0 <= j < r < x.len() && j < c ==> #[trigger] x[r][j] == 0
}

/// What holds of the matrix `x` that elimination has made of `orig` when the
/// columns before `c` are done: the entries below the diagonal in those
/// columns are zero, and every leading block has kept its determinant.
pub open spec fn elimination_invariant(
    p: int,
    orig: Seq<Seq<int>>,
    x: Seq<Seq<int>>,
    c: int,
) -> bool {
    &&& is_square_matrix(x)
    &&& x.len() == orig.len()
    &&& is_cleared_before(x, c)
    &&& forall|k: int|
        1 <= k <= x.len() ==> congruent(p, det(#[trigger] leading(x, k)), det(leading(orig, k)))
}

/// A row has zero in the column that was cleared in it.
pub proof fn lemma_eliminated_row_clears(p: int, m: Seq<Seq<int>>, c: int, pivot: int, i: int)
    requires
        p > 1,
        has_inverse(p, m[pivot][c]),
        0 <= c < m[i].len(),
        c < m[pivot].len(),
    ensures
        eliminated_row(p, m, c, pivot, i)[c] == 0,
{
    if m[i][c] != 0 {
        let v = m[i][c];
        let a = m[pivot][c];
        let inv = inverse_of(p, a);
        assert(is_inverse_of(p, a, inv));
        let f = elimination_factor(p, m, c, pivot, i);
        assert(eliminated_row(p, m, c, pivot, i)[c] == (v - (f * a) % p) % p);
        lemma_mul_mod_noop_left(v * inv, a, p);
        assert((v * inv) * a == v * (a * inv)) by (nonlinear_arith);
        lemma_mul_mod_noop_right(v, a * inv, p);
        assert(v * 1 == v) by (nonlinear_arith);
        lemma_sub_mod_noop_right(v, v, p);
        lemma_small_mod(0, p as nat);
    }
}

/// A row keeps zero in a column where it and the pivot row hold zero.
pub proof fn lemma_eliminated_row_keeps_zero(
    p: int,
    m: Seq<Seq<int>>,
    c: int,
    pivot: int,
    i: int,
    j: int,
)
    requires
        p > 1,
        0 <= j < m[i].len(),
        j < m[pivot].len(),
        m[i][j] == 0,
        m[pivot][j] == 0,
    ensures
        eliminated_row(p, m, c, pivot, i)[j] == 0,
{
    if m[i][c] != 0 {
        let f = elimination_factor(p, m, c, pivot, i);
        assert(f * 0 == 0) by (nonlinear_arith);
        lemma_small_mod(0, p as nat);
    }
}

/// One elimination step leaves a square matrix, with one more column
/// cleared below the diagonal.
pub proof fn lemma_elimination_clears(p: int, x: Seq<Seq<int>>, c: int)
    requires
        p > 1,
        is_square_matrix(x),
        is_cleared_before(x, c),
        0 <= c,
        c + 1 < x.len(),
        has_inverse(p, x[c][c]),
    ensures
        is_square_matrix(x.take(c + 1) + eliminated(p, x.skip(c), c, 0).skip(1)),
        (x.take(c + 1) + eliminated(p, x.skip(c), c, 0).skip(1)).len() == x.len(),
        is_cleared_before(x.take(c + 1) + eliminated(p, x.skip(c), c, 0).skip(1), c + 1),
{
    let n = x.len() as int;
    let cur = x.skip(c);
    let e = eliminated(p, cur, c, 0);
    let x2 = x.take(c + 1) + e.skip(1);
    assert(x[c].len() == n);
    assert(cur[0] == x[c]);
    assert forall|r: int| c < r < n implies #[trigger] x2[r] == eliminated_row(
        p,
        cur,
        c,
        0,
        r - c,
    ) by {
        assert(x2[r] == e.skip(1)[r - c - 1]);
        assert(skip_index(r - c - 1, 0) == r - c);
    }
    assert forall|r: int| 0 <= r < x2.len() implies (#[trigger] x2[r]).len() == n by {
        assert(x[r].len() == n);
        if r > c {
            assert(cur[r - c] == x[r]);
        }
    }
    assert(x2[0].len() == n);
    assert forall|r: int, j: int| 0 <= j < r < n && j < c + 1 implies #[trigger] x2[r][j]
        == 0 by {
        if r > c {
            assert(cur[r - c] == x[r]);
            assert(x[r].len() == n);
            if j < c {
                assert(x[r][j] == 0);
                assert(x[c][j] == 0);
                lemma_eliminated_row_keeps_zero(p, cur, c, 0, r - c, j);
            } else {
                lemma_eliminated_row_clears(p, cur, c, 0, r - c);
            }
        } else {
            assert(x2[r] == x[r]);
        }
    }
}

/// The triangular form that elimination reaches, with the rows done before
/// it, is square and upper-triangular.
pub proof fn lemma_triangular_shape(p: int, x: Seq<Seq<int>>, c: int)
    requires
        p > 1,
        is_square_matrix(x),
        is_cleared_before(x, c),
        0 <= c < x.len(),
        pivots_invertible(p, x.skip(c), c),
    ensures
        is_square_matrix(x.take(c) + triangular_rows(p, x.skip(c), c)),
        (x.take(c) + triangular_rows(p, x.skip(c), c)).len() == x.len(),
        is_upper_triangular(x.take(c) + triangular_rows(p, x.skip(c), c)),
    decreases x.len() - c,
{
    let cur = x.skip(c);
    if cur.len() > 1 {
        assert(cur[0] == x[c]);
        lemma_elimination_clears(p, x, c);
        let e = eliminated(p, cur, c, 0);
        let x2 = x.take(c + 1) + e.skip(1);
        assert(x2.skip(c + 1) =~= e.skip(1));
        lemma_triangular_shape(p, x2, c + 1);
        assert(x2.take(c + 1) + triangular_rows(p, x2.skip(c + 1), c + 1) =~= x.take(c)
            + triangular_rows(p, cur, c));
    } else {
        assert(x.take(c) + triangular_rows(p, cur, c) =~= x);
    }
}

/// The triangular form of a square matrix whose pivots have inverses is
/// square and upper-triangular.
pub proof fn lemma_triangular_rows_upper(p: int, m: Seq<Seq<int>>)
    requires
        p > 1,
        is_square_matrix(m),
        m.len() >= 1,
        pivots_invertible(p, m, 0),
    ensures
        is_square_matrix(triangular_rows(p, m, 0)),
        triangular_rows(p, m, 0).len() == m.len(),
        is_upper_triangular(triangular_rows(p, m, 0)),
{
    assert(m.skip(0) =~= m);
    lemma_triangular_shape(p, m, 0);
    assert(m.take(0) + triangular_rows(p, m.skip(0), 0) =~= triangular_rows(p, m, 0));
}

/// The rows of `x2` before `t`, then those of `x`.
pub open spec fn mixed(x: Seq<Seq<int>>, x2: Seq<Seq<int>>, t: int) -> Seq<Seq<int>> {
    Seq::new(x.len(), |r: int| if r < t { x2[r] } else { x[r] })
}

/// Replacing the rows below row `c`, one after another, by themselves minus
/// a multiple of row `c` keeps the determinant of every leading block.
proof fn lemma_mixed_minors(
    p: int,
    x: Seq<Seq<int>>,
    x2: Seq<Seq<int>>,
    c: int,
    g: spec_fn(int) -> int,
    t: int,
)
    requires
        p > 0,
        is_square_matrix(x),
        is_square_matrix(x2),
        x2.len() == x.len(),
        0 <= c < t <= x.len(),
        forall|r: int| 0 <= r <= c ==> #[trigger] x2[r] == x[r],
        forall|r: int, j: int|
            c < r < x.len() && 0 <= j < x.len() ==> congruent(
                p,
                #[trigger] x2[r][j],
                x[r][j] - g(r) * x[c][j],
            ),
    ensures
        forall|k: int|
            1 <= k <= x.len() ==> congruent(
                p,
                det(#[trigger] leading(mixed(x, x2, t), k)),
                det(leading(x, k)),
            ),
    decreases t - c,
{
    let n = x.len() as int;
    if t == c + 1 {
        assert(mixed(x, x2, t) =~= x);
    } else {
        lemma_mixed_minors(p, x, x2, c, g, t - 1);
        let a = mixed(x, x2, t - 1);
        let b = mixed(x, x2, t);
        assert(b =~= a.update(t - 1, x2[t - 1]));
        assert(is_square_matrix(a)) by {
            assert forall|r: int| 0 <= r < a.len() implies (#[trigger] a[r]).len() == n by {
                assert(x[r].len() == n);
                assert(x2[r].len() == n);
            }
            assert(a[0].len() == n);
        }
        assert forall|k: int| 1 <= k <= n implies congruent(
            p,
            det(#[trigger] leading(b, k)),
            det(leading(x, k)),
        ) by {
            assert(congruent(p, det(leading(a, k)), det(leading(x, k))));
            if k <= t - 1 {
                assert(leading(b, k) =~~= leading(a, k));
            } else {
                let y = leading(a, k);
                let w = x2[t - 1].take(k);
                assert(x2[t - 1].len() == n);
                assert(x[t - 1].len() == n);
                assert(x[c].len() == n);
                assert(leading(b, k) =~~= y.update(t - 1, w));
                lemma_leading_square(a, k);
                assert(x2[c] == x[c]);
                assert forall|j: int| 0 <= j < k implies congruent(
                    p,
                    #[trigger] w[j],
                    y[t - 1][j] - g(t - 1) * y[c][j],
                ) by {
                    assert(w[j] == x2[t - 1][j]);
                    assert(y[t - 1][j] == x[t - 1][j]);
                    assert(y[c][j] == x[c][j]);
                }
                lemma_row_operation(p, y, t - 1, c, g(t - 1), w);
            }
        }
    }
}

/// Under the invariant the next pivot is not zero.
pub proof fn lemma_pivot_nonzero(p: int, orig: Seq<Seq<int>>, x: Seq<Seq<int>>, c: int)
    requires
        p > 0,
        elimination_invariant(p, orig, x, c),
        0 <= c < x.len(),
        leading_minors_nonzero(p, orig),
    ensures
        x[c][c] % p != 0,
        x[c][c] != 0,
{
    let y = leading(x, c + 1);
    lemma_leading_square(x, c + 1);
    assert(x[c].len() == x.len());
    assert forall|j: int| 0 <= j < y.len() - 1 implies #[trigger] y[y.len() - 1][j] == 0 by {
        assert(y[c][j] == x[c][j]);
    }
    lemma_last_row(y);
    let d = minor_determinant(y, c, c);
    assert(y[c][c] == x[c][c]);
    assert(congruent(p, det(leading(x, c + 1)), det(leading(orig, c + 1))));
    assert(det(leading(orig, c + 1)) % p != 0);
    lemma_small_mod(0, p as nat);
    if x[c][c] % p == 0 {
        lemma_mul_mod_noop_left(x[c][c], d, p);
        assert(0 * d == 0) by (nonlinear_arith);
    }
}

/// One elimination step keeps the invariant.
pub proof fn lemma_elimination_step(p: int, orig: Seq<Seq<int>>, x: Seq<Seq<int>>, c: int)
    requires
        p > 1,
        elimination_invariant(p, orig, x, c),
        0 <= c,
        c + 1 < x.len(),
        has_inverse(p, x[c][c]),
    ensures
        elimination_invariant(
            p,
            orig,
            x.take(c + 1) + eliminated(p, x.skip(c), c, 0).skip(1),
            c + 1,
        ),
{
    let n = x.len() as int;
    let cur = x.skip(c);
    let e = eliminated(p, cur, c, 0);
    let x2 = x.take(c + 1) + e.skip(1);
    let inv = inverse_of(p, x[c][c]);
    assert(is_inverse_of(p, x[c][c], inv));
    let g = |r: int|
        if x[r][c] == 0 {
            0int
        } else {
            (x[r][c] * inv) % p
        };
    lemma_small_mod(0, p as nat);
    assert(x[c].len() == n);
    assert forall|r: int| 0 <= r <= c implies #[trigger] x2[r] == x[r] by {}
    assert forall|r: int| c < r < n implies #[trigger] x2[r] == eliminated_row(
        p,
        cur,
        c,
        0,
        r - c,
    ) by {
        assert(x2[r] == e.skip(1)[r - c - 1]);
        assert(skip_index(r - c - 1, 0) == r - c);
    }
    assert forall|r: int| c < r < n implies (#[trigger] x2[r]).len() == n by {
        assert(x[r].len() == n);
        assert(cur[r - c] == x[r]);
        assert(cur[0] == x[c]);
    }
    assert forall|r: int, j: int| c < r < n && 0 <= j < n implies congruent(
        p,
        #[trigger] x2[r][j],
        x[r][j] - g(r) * x[c][j],
    ) by {
        assert(cur[r - c] == x[r]);
        assert(cur[0] == x[c]);
        assert(x[r].len() == n);
        let a = x[c][j];
        if x[r][c] == 0 {
            assert(0 * a == 0) by (nonlinear_arith);
        } else {
            let f = g(r);
            assert(f == elimination_factor(p, cur, c, 0, r - c));
            assert(x2[r][j] == (x[r][j] - (f * a) % p) % p);
            lemma_sub_mod_noop_right(x[r][j], f * a, p);
            lemma_mod_twice(x[r][j] - (f * a) % p, p);
        }
    }
    lemma_elimination_clears(p, x, c);
    lemma_mixed_minors(p, x, x2, c, g, n);
    assert(mixed(x, x2, n) =~= x2);
    assert forall|k: int| 1 <= k <= n implies congruent(
        p,
        det(#[trigger] leading(x2, k)),
        det(leading(orig, k)),
    ) by {
        assert(congruent(p, det(leading(mixed(x, x2, n), k)), det(leading(x, k))));
        assert(congruent(p, det(leading(x, k)), det(leading(orig, k))));
    }
}

/// A matrix whose leading blocks all have determinants other than zero meets
/// no zero pivot on its way to triangular form.
pub proof fn lemma_pivots_nonzero(p: int, orig: Seq<Seq<int>>, x: Seq<Seq<int>>, c: int)
    requires
        p > 1,
        elimination_invariant(p, orig, x, c),
        0 <= c < x.len(),
        leading_minors_nonzero(p, orig),
    ensures
        pivots_nonzero(p, x.skip(c), c),
    decreases x.len() - c,
{
    let cur = x.skip(c);
    if cur.len() > 1 {
        lemma_pivot_nonzero(p, orig, x, c);
        assert(cur[0] == x[c]);
        if has_inverse(p, x[c][c]) {
            lemma_elimination_step(p, orig, x, c);
            let e = eliminated(p, cur, c, 0);
            let x2 = x.take(c + 1) + e.skip(1);
            lemma_pivots_nonzero(p, orig, x2, c + 1);
            assert(x2.skip(c + 1) =~= e.skip(1));
        }
    }
}

/// The triangular form that elimination reaches, with the rows done before
/// it, keeps the invariant for all columns.
pub proof fn lemma_triangular_invariant(p: int, orig: Seq<Seq<int>>, x: Seq<Seq<int>>, c: int)
    requires
        p > 1,
        elimination_invariant(p, orig, x, c),
        0 <= c < x.len(),
        pivots_invertible(p, x.skip(c), c),
    ensures
        elimination_invariant(
            p,
            orig,
            x.take(c) + triangular_rows(p, x.skip(c), c),
            x.len() as int,
        ),
    decreases x.len() - c,
{
    let cur = x.skip(c);
    if cur.len() > 1 {
        assert(cur[0] == x[c]);
        lemma_elimination_step(p, orig, x, c);
        let e = eliminated(p, cur, c, 0);
        let x2 = x.take(c + 1) + e.skip(1);
        assert(x2.skip(c + 1) =~= e.skip(1));
        lemma_triangular_invariant(p, orig, x2, c + 1);
        assert(x2.take(c + 1) + triangular_rows(p, x2.skip(c + 1), c + 1) =~= x.take(c)
            + triangular_rows(p, cur, c));
    } else {
        assert(x.take(c) + triangular_rows(p, cur, c) =~= x);
    }
}

/// The determinant of an upper-triangular matrix whose diagonal entries have
/// inverses has an inverse.
pub proof fn lemma_triangular_det(p: int, u: Seq<Seq<int>>)
    requires
        p > 1,
        is_square_matrix(u),
        u.len() >= 1,
        is_upper_triangular(u),
        diagonal_invertible(p, u),
    ensures
        has_inverse(p, det(u)),
    decreases u.len(),
{
    let n = u.len() as int;
    assert(has_inverse(p, u[n - 1][n - 1]));
    if n == 1 {
        lemma_det_single(u);
    } else {
        assert forall|j: int| 0 <= j < n - 1 implies #[trigger] u[n - 1][j] == 0 by {}
        lemma_last_row(u);
        let x = minor_of(u, n - 1, n - 1);
        assert(is_square_matrix(x)) by {
            assert forall|r: int| 0 <= r < x.len() implies (#[trigger] x[r]).len()
                == x.len() by {}
            assert(x[0].len() == x.len());
        }
        assert forall|r: int, j: int| 0 <= j < r < x.len() implies #[trigger] x[r][j] == 0 by {
            assert(u[r][j] == 0);
        }
        assert forall|i: int| 0 <= i < x.len() implies has_inverse(p, #[trigger] x[i][i]) by {
            assert(x[i][i] == u[i][i]);
        }
        lemma_triangular_det(p, x);
        lemma_has_inverse_product(p, u[n - 1][n - 1], det(x));
    }
}

/// In a field, a matrix whose leading blocks all have determinants other
/// than zero has pivots with inverses all the way to triangular form.
pub proof fn lemma_pivots_invertible(p: int, orig: Seq<Seq<int>>, x: Seq<Seq<int>>, c: int)
    requires
        is_field_order(p),
        elimination_invariant(p, orig, x, c),
        0 <= c < x.len(),
        leading_minors_nonzero(p, orig),
    ensures
        pivots_invertible(p, x.skip(c), c),
    decreases x.len() - c,
{
    let cur = x.skip(c);
    if cur.len() > 1 {
        lemma_pivot_nonzero(p, orig, x, c);
        assert(cur[0] == x[c]);
        assert(has_inverse(p, x[c][c]));
        lemma_elimination_step(p, orig, x, c);
        let e = eliminated(p, cur, c, 0);
        let x2 = x.take(c + 1) + e.skip(1);
        lemma_pivots_invertible(p, orig, x2, c + 1);
        assert(x2.skip(c + 1) =~= e.skip(1));
    }
}

/// The whole of a square matrix is its largest leading block.
pub proof fn lemma_leading_whole(x: Seq<Seq<int>>)
    requires
        is_square_matrix(x),
    ensures
        leading(x, x.len() as int) == x,
{
    let y = leading(x, x.len() as int);
    assert forall|r: int| 0 <= r < x.len() implies #[trigger] y[r] =~= x[r] by {
        assert(x[r].len() == x.len());
    }
    assert(y =~= x);
}

/// A matrix is in the state that elimination starts from.
pub proof fn lemma_initial_invariant(p: int, m: Seq<Seq<int>>)
    requires
        is_square_matrix(m),
    ensures
        elimination_invariant(p, m, m, 0),
{
}

/// A matrix whose leading blocks all have determinants other than zero can
/// be reduced to triangular form.
pub proof fn lemma_elimination_defined(p: int, m: Seq<Seq<int>>)
    requires
        p > 1,
        is_square_matrix(m),
        m.len() >= 1,
        leading_minors_nonzero(p, m),
    ensures
        pivots_nonzero(p, m, 0),
{
    lemma_initial_invariant(p, m);
    lemma_pivots_nonzero(p, m, m, 0);
    assert(m.skip(0) =~= m);
}

/// The triangular form of such a matrix is square and upper-triangular, has
/// no zero on its diagonal, and has kept the determinant.
pub proof fn lemma_triangular_form(p: int, m: Seq<Seq<int>>)
    requires
        p > 1,
        is_square_matrix(m),
        m.len() >= 1,
        leading_minors_nonzero(p, m),
        pivots_invertible(p, m, 0),
    ensures
        is_square_matrix(triangular_rows(p, m, 0)),
        triangular_rows(p, m, 0).len() == m.len(),
        is_upper_triangular(triangular_rows(p, m, 0)),
        diagonal_nonzero(triangular_rows(p, m, 0)),
        congruent(p, det(triangular_rows(p, m, 0)), det(m)),
{
    let n = m.len() as int;
    let u = triangular_rows(p, m, 0);
    lemma_initial_invariant(p, m);
    assert(m.skip(0) =~= m);
    lemma_triangular_invariant(p, m, m, 0);
    assert(m.take(0) + triangular_rows(p, m.skip(0), 0) =~= u);
    assert(elimination_invariant(p, m, u, n));
    assert forall|i: int| 0 <= i < u.len() implies #[trigger] u[i][i] != 0 by {
        lemma_pivot_nonzero(p, m, u, i);
    }
    lemma_leading_whole(u);
    lemma_leading_whole(m);
    assert(congruent(p, det(leading(u, n)), det(leading(m, n))));
}

/// A matrix `t` of reduced entries with `t` times `m` the identity is the
/// matrix `a` of reduced entries with `m` times `a` the identity.
pub proof fn lemma_left_inverse_is_inverse(
    p: int,
    m: Seq<Seq<int>>,
    t: Seq<Seq<int>>,
    a: Seq<Seq<int>>,
)
    requires
        p > 1,
        is_square_matrix(m),
        is_square_matrix(a),
        a.len() == m.len(),
        t.len() == m.len(),
        forall|r: int| 0 <= r < m.len() ==> #[trigger] tracks(p, m, t[r], identity(m.len())[r]),
        forall|r: int| 0 <= r < m.len() ==> is_reduced(p, #[trigger] t[r]),
        forall|r: int| 0 <= r < m.len() ==> is_reduced(p, #[trigger] a[r]),
        product(p, m, a) == identity(m.len()),
    ensures
        t == a,
        product(p, t, m) == identity(m.len()),
{
    let n = m.len() as int;
    let id = identity(m.len());
    lemma_small_mod(0, p as nat);
    lemma_small_mod(1, p as nat);
    if n > 0 {
        assert(a[0].len() == n);
        assert(m[0].len() == n);
    }
    assert forall|r: int| 0 <= r < n implies #[trigger] t[r] =~= a[r] by {
        assert(tracks(p, m, t[r], id[r]));
        assert(a[r].len() == n);
        assert(is_reduced(p, t[r]));
        assert(is_reduced(p, a[r]));
        assert forall|c: int| 0 <= c < n implies t[r][c] == a[r][c] by {
            let col = column(a, c);
            let right = Seq::new(m.len(), |j: int| dot_prefix(m[j], col, n));
            let left = Seq::new(m.len(), |k: int| dot_prefix(t[r], column(m, k), n));
            let unit_c = Seq::new(m.len(), |j: int| if j == c { 1int } else { 0int });
            let unit_r = Seq::new(m.len(), |k: int| if k == r { 1int } else { 0int });
            lemma_triple_product(t[r], m, col);
            assert forall|j: int| 0 <= j < n implies congruent(
                p,
                #[trigger] right[j],
                unit_c[j],
            ) by {
                assert(m[j].len() == n);
                assert(common_len(m[j], col) == n);
                assert(product(p, m, a)[j][c] == dot(m[j], col) % p);
                assert(id[j][c] == unit_c[j]);
            }
            lemma_dot_congruent(p, t[r], right, t[r], unit_c, n);
            lemma_dot_unit(t[r], unit_c, n, c);
            assert forall|k: int| 0 <= k < n implies congruent(
                p,
                #[trigger] left[k],
                unit_r[k],
            ) by {
                lemma_dot_commutes(t[r], column(m, k), n);
                assert(congruent(p, dot_prefix(column(m, k), t[r], n), id[r][k]));
            }
            lemma_dot_congruent(p, left, col, unit_r, col, n);
            lemma_dot_commutes(unit_r, col, n);
            lemma_dot_unit(col, unit_r, n, r);
            assert(congruent(p, t[r][c], a[r][c]));
            lemma_small_mod(t[r][c] as nat, p as nat);
            lemma_small_mod(a[r][c] as nat, p as nat);
        }
    }
    assert(t =~= a);
    assert forall|r: int, k: int| 0 <= r < n && 0 <= k < n implies dot(t[r], column(m, k)) % p
        == id[r][k] by {
        assert(tracks(p, m, t[r], id[r]));
        assert(common_len(t[r], column(m, k)) == n);
        lemma_dot_commutes(t[r], column(m, k), n);
        assert(congruent(p, dot_prefix(column(m, k), t[r], n), id[r][k]));
    }
    assert(product(p, t, m) =~~= id);
}

/// Elimination gives the inverse: for a matrix whose leading blocks all have
/// determinants other than zero, and whose pivots have inverses, the shadow
/// ends as the adjugate over the determinant, which is an inverse on both
/// sides.
pub proof fn lemma_elimination_inverts(p: int, m: Seq<Seq<int>>)
    requires
        p > 1,
        is_square_matrix(m),
        m.len() >= 1,
        leading_minors_nonzero(p, m),
        pivots_invertible(p, m, 0),
        diagonal_invertible(p, triangular_rows(p, m, 0)),
    ensures
        has_inverse(p, det(m) % p),
        eliminated_inverse(p, m) == inverse_matrix(p, m),
        product(p, m, inverse_matrix(p, m)) == identity(m.len()),
        product(p, inverse_matrix(p, m), m) == identity(m.len()),
        solved_rows(p, triangular_rows(p, m, 0), triangular_shadow(p, m, identity(m.len()), 0))
            == identity(m.len()),
{
    let n = m.len() as int;
    let id = identity(m.len());
    let u = triangular_rows(p, m, 0);
    let s1 = triangular_shadow(p, m, id, 0);
    let t = eliminated_inverse(p, m);
    let a = inverse_matrix(p, m);
    assert forall|r: int| 0 <= r < m.len() implies #[trigger] tracks(p, m, id[r], m[r]) by {
        lemma_identity_tracks(p, m, r);
    }
    lemma_triangular_tracks(p, m, m, id, 0);
    lemma_triangular_form(p, m);
    lemma_solved_rows_identity(p, u, s1);
    assert forall|r: int| 0 <= r < m.len() implies #[trigger] tracks(p, m, t[r], id[r]) by {
        lemma_back_substituted_tracks(p, m, u, s1, r, n - 1 - r);
        assert(solved_rows(p, u, s1)[r] == id[r]);
    }
    assert forall|r: int| 0 <= r < m.len() implies is_reduced(p, #[trigger] t[r]) by {
        lemma_back_substituted_tracks(p, m, u, s1, r, n - 1 - r);
    }
    lemma_triangular_det(p, u);
    lemma_has_inverse_congruent(p, det(u), det(m));
    lemma_congruent_reduced(p, det(m));
    lemma_has_inverse_congruent(p, det(m), det(m) % p);
    lemma_inverse_matrix_right(p, m);
    assert forall|r: int| 0 <= r < m.len() implies is_reduced(p, #[trigger] a[r]) by {
        assert forall|k: int| 0 <= k < a[r].len() implies 0 <= #[trigger] a[r][k] < p by {
            lemma_mod_bound(inverse_of(p, det(m) % p) * (cofactor_of(m, k, r) % p), p);
        }
    }
    assert(is_square_matrix(a)) by {
        assert forall|r: int| 0 <= r < a.len() implies (#[trigger] a[r]).len() == n by {}
        assert(a[0].len() == n);
    }
    lemma_left_inverse_is_inverse(p, m, t, a);
}

} // verus!
