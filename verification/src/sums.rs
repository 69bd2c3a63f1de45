//! Finite sums of integers, single and double.

use crate::model::skip_index;
use vstd::prelude::*;

verus! {

/// The sum of `f(i)` over `0 <= i < n`.
pub open spec fn sum(f: spec_fn(int) -> int, n: int) -> int
    decreases n,
{
    if n <= 0 {
        0
    } else {
        sum(f, n - 1) + f(n - 1)
    }
}

/// The sum of `f(i, j)` over `0 <= j < m`.
pub open spec fn sum_row(f: spec_fn(int, int) -> int, i: int, m: int) -> int
    decreases m,
{
    if m <= 0 {
        0
    } else {
        sum_row(f, i, m - 1) + f(i, m - 1)
    }
}

/// The sum of `f(i, j)` over `0 <= i < n`.
pub open spec fn sum_column(f: spec_fn(int, int) -> int, j: int, n: int) -> int
    decreases n,
{
    if n <= 0 {
        0
    } else {
        sum_column(f, j, n - 1) + f(n - 1, j)
    }
}

/// The sum of `f` over `n` rows of `m` entries, row by row.
pub open spec fn sum_by_rows(f: spec_fn(int, int) -> int, n: int, m: int) -> int
    decreases n,
{
    if n <= 0 {
        0
    } else {
        sum_by_rows(f, n - 1, m) + sum_row(f, n - 1, m)
    }
}

/// The sum of `f` over `n` rows of `m` entries, column by column.
pub open spec fn sum_by_columns(f: spec_fn(int, int) -> int, n: int, m: int) -> int
    decreases m,
{
    if m <= 0 {
        0
    } else {
        sum_by_columns(f, n, m - 1) + sum_column(f, m - 1, n)
    }
}

/// Sums of equal terms are equal.
pub proof fn lemma_sum_equal(f: spec_fn(int) -> int, g: spec_fn(int) -> int, n: int)
    requires
        forall|i: int| 0 <= i < n ==> #[trigger] f(i) == g(i),
    ensures
        sum(f, n) == sum(g, n),
    decreases n,
{
    if n > 0 {
        lemma_sum_equal(f, g, n - 1);
    }
}

/// A common factor leaves a sum.
pub proof fn lemma_sum_scale(c: int, f: spec_fn(int) -> int, h: spec_fn(int) -> int, n: int)
    requires
        forall|i: int| 0 <= i < n ==> #[trigger] h(i) == c * f(i),
    ensures
        sum(h, n) == c * sum(f, n),
    decreases n,
{
    if n > 0 {
        lemma_sum_scale(c, f, h, n - 1);
        let s = sum(f, n - 1);
        let x = f(n - 1);
        assert(c * (s + x) == c * s + c * x) by (nonlinear_arith);
    } else {
        assert(c * 0 == 0) by (nonlinear_arith);
    }
}

/// A sum of zeros is zero.
pub proof fn lemma_sum_zero(f: spec_fn(int) -> int, n: int)
    requires
        forall|i: int| 0 <= i < n ==> #[trigger] f(i) == 0,
    ensures
        sum(f, n) == 0,
    decreases n,
{
    if n > 0 {
        lemma_sum_zero(f, n - 1);
    }
}

/// A sum whose terms are zero but at `k` is the term at `k`.
pub proof fn lemma_sum_single(f: spec_fn(int) -> int, n: int, k: int)
    requires
        0 <= k < n,
        forall|i: int| 0 <= i < n && i != k ==> #[trigger] f(i) == 0,
    ensures
        sum(f, n) == f(k),
    decreases n,
{
    if k == n - 1 {
        lemma_sum_zero(f, n - 1);
    } else {
        lemma_sum_single(f, n - 1, k);
    }
}

/// A sum over all positions but `j`, and the term at `j`, make the whole sum.
pub proof fn lemma_sum_skip(f: spec_fn(int) -> int, g: spec_fn(int) -> int, n: int, j: int)
    requires
        0 <= j < n,
        forall|k: int| 0 <= k < n - 1 ==> #[trigger] g(k) == f(skip_index(k, j)),
    ensures
        sum(g, n - 1) + f(j) == sum(f, n),
    decreases n,
{
    if j == n - 1 {
        assert forall|k: int| 0 <= k < n - 1 implies #[trigger] g(k) == f(k) by {
            assert(skip_index(k, j) == k);
        }
        lemma_sum_equal(g, f, n - 1);
    } else {
        lemma_sum_skip(f, g, n - 1, j);
        assert(g(n - 2) == f(skip_index(n - 2, j)));
    }
}

/// A single sum whose terms are those of row `i` is the sum of that row.
pub proof fn lemma_sum_row_is_sum(
    f: spec_fn(int, int) -> int,
    g: spec_fn(int) -> int,
    i: int,
    m: int,
)
    requires
        forall|j: int| 0 <= j < m ==> #[trigger] g(j) == f(i, j),
    ensures
        sum(g, m) == sum_row(f, i, m),
    decreases m,
{
    if m > 0 {
        lemma_sum_row_is_sum(f, g, i, m - 1);
    }
}

/// A single sum whose terms are those of column `j` is the sum of that column.
pub proof fn lemma_sum_column_is_sum(
    f: spec_fn(int, int) -> int,
    g: spec_fn(int) -> int,
    j: int,
    n: int,
)
    requires
        forall|i: int| 0 <= i < n ==> #[trigger] g(i) == f(i, j),
    ensures
        sum(g, n) == sum_column(f, j, n),
    decreases n,
{
    if n > 0 {
        lemma_sum_column_is_sum(f, g, j, n - 1);
    }
}

/// A single sum whose terms are the sums of the rows is the sum by rows.
pub proof fn lemma_sum_by_rows_is_sum(
    f: spec_fn(int, int) -> int,
    h: spec_fn(int) -> int,
    n: int,
    m: int,
)
    requires
        forall|i: int| 0 <= i < n ==> #[trigger] h(i) == sum_row(f, i, m),
    ensures
        sum(h, n) == sum_by_rows(f, n, m),
    decreases n,
{
    if n > 0 {
        lemma_sum_by_rows_is_sum(f, h, n - 1, m);
    }
}

/// A single sum whose terms are the sums of the columns is the sum by columns.
pub proof fn lemma_sum_by_columns_is_sum(
    f: spec_fn(int, int) -> int,
    h: spec_fn(int) -> int,
    n: int,
    m: int,
)
    requires
        forall|j: int| 0 <= j < m ==> #[trigger] h(j) == sum_column(f, j, n),
    ensures
        sum(h, m) == sum_by_columns(f, n, m),
    decreases m,
{
    if m > 0 {
        lemma_sum_by_columns_is_sum(f, h, n, m - 1);
    }
}

/// Column sums of equal terms are equal.
pub proof fn lemma_sum_column_equal(
    f: spec_fn(int, int) -> int,
    g: spec_fn(int, int) -> int,
    j: int,
    n: int,
)
    requires
        forall|i: int| 0 <= i < n ==> #[trigger] f(i, j) == g(i, j),
    ensures
        sum_column(f, j, n) == sum_column(g, j, n),
    decreases n,
{
    if n > 0 {
        lemma_sum_column_equal(f, g, j, n - 1);
    }
}

/// Double sums of equal terms are equal.
pub proof fn lemma_sum_by_columns_equal(
    f: spec_fn(int, int) -> int,
    g: spec_fn(int, int) -> int,
    n: int,
    m: int,
)
    requires
        forall|i: int, j: int| 0 <= i < n && 0 <= j < m ==> #[trigger] f(i, j) == g(i, j),
    ensures
        sum_by_columns(f, n, m) == sum_by_columns(g, n, m),
    decreases m,
{
    if m > 0 {
        lemma_sum_by_columns_equal(f, g, n, m - 1);
        lemma_sum_column_equal(f, g, m - 1, n);
    }
}

proof fn lemma_sum_by_columns_empty(f: spec_fn(int, int) -> int, n: int, m: int)
    requires
        n <= 0,
    ensures
        sum_by_columns(f, n, m) == 0,
    decreases m,
{
    if m > 0 {
        lemma_sum_by_columns_empty(f, n, m - 1);
    }
}

proof fn lemma_sum_by_columns_step(f: spec_fn(int, int) -> int, n: int, m: int)
    requires
        n > 0,
    ensures
        sum_by_columns(f, n, m) == sum_by_columns(f, n - 1, m) + sum_row(f, n - 1, m),
    decreases m,
{
    if m > 0 {
        lemma_sum_by_columns_step(f, n, m - 1);
    }
}

/// A double sum does not depend on the order of summation.
pub proof fn lemma_sum_exchange(f: spec_fn(int, int) -> int, n: int, m: int)
    ensures
        sum_by_rows(f, n, m) == sum_by_columns(f, n, m),
    decreases n,
{
    if n > 0 {
        lemma_sum_exchange(f, n - 1, m);
        lemma_sum_by_columns_step(f, n, m);
    } else {
        lemma_sum_by_columns_empty(f, n, m);
    }
}

} // verus!
