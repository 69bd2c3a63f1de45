//! The matrix engine: shape queries, element-wise and linear operations.

use crate::field::FieldElement;
use crate::model::{
    applied, applied_left, column, common_len, dot, dot_prefix, grid, identity, is_identity_matrix,
    is_matrix, is_square_matrix, matrix_values, minor_of, pointwise_difference, pointwise_product,
    pointwise_sum, product, scaled, scaled_matrix, skip_index, transposed, vector_values, width,
};
use vstd::arithmetic::div_mod::{lemma_add_mod_noop, lemma_small_mod};
use vstd::prelude::*;

verus! {

/// A matrix as a vector of rows: `m[i][j]` is column `j` of row `i`.
pub type Matrix<T> = Vec<Vec<T>>;

/// The number of rows.
pub fn rows<T>(matrix: &Matrix<T>) -> (r: usize)
    ensures
        r == matrix.len(),
{
    matrix.len()
}

/// The number of columns of a well-formed matrix.
pub fn columns<T>(matrix: &Matrix<T>) -> (r: usize)
    requires
        is_matrix(grid(matrix@)),
    ensures
        r == width(grid(matrix@)),
{
    if matrix.len() > 0 {
        matrix[0].len()
    } else {
        0
    }
}

/// Whether a well-formed matrix has as many rows as columns.
pub fn is_square<T>(matrix: &Matrix<T>) -> (r: bool)
    requires
        is_matrix(grid(matrix@)),
    ensures
        r == is_square_matrix(grid(matrix@)),
{
    rows(matrix) == columns(matrix)
}

/// Multiplies every element of `vec` by `scalar`.
pub fn scalar_vec_mul<F: FieldElement>(scalar: F, vec: &[F]) -> (r: Vec<F>)
    ensures
        vector_values(r@) == scaled(F::modulus(), scalar.value(), vector_values(vec@)),
{
    let mut r: Vec<F> = Vec::with_capacity(vec.len());
    let mut k: usize = 0;
    while k < vec.len()
        invariant
            k <= vec.len(),
            r.len() == k,
            forall|t: int|
                0 <= t < k ==> (#[trigger] r[t]).value() == (scalar.value() * vec[t].value())
                    % F::modulus(),
        decreases vec.len() - k,
    {
        r.push(scalar.times(&vec[k]));
        k += 1;
    }
    assert(vector_values(r@) =~= scaled(F::modulus(), scalar.value(), vector_values(vec@)));
    r
}

/// Multiplies every element of `matrix` by `scalar`.
pub fn scalar_mul<F: FieldElement>(scalar: F, matrix: &Matrix<F>) -> (r: Matrix<F>)
    ensures
        matrix_values(r@) == scaled_matrix(F::modulus(), scalar.value(), matrix_values(matrix@)),
{
    let mut r: Matrix<F> = Vec::with_capacity(matrix.len());
    let mut i: usize = 0;
    while i < matrix.len()
        invariant
            i <= matrix.len(),
            r.len() == i,
            forall|t: int|
                0 <= t < i ==> vector_values((#[trigger] r[t])@) == scaled(
                    F::modulus(),
                    scalar.value(),
                    vector_values(matrix[t]@),
                ),
        decreases matrix.len() - i,
    {
        r.push(scalar_vec_mul(scalar, matrix[i].as_slice()));
        i += 1;
    }
    assert(matrix_values(r@) =~= scaled_matrix(
        F::modulus(),
        scalar.value(),
        matrix_values(matrix@),
    ));
    r
}

/// The element-wise product of two vectors of one length.
pub fn hadamard_vec_mul<F: FieldElement>(a: &[F], b: &[F]) -> (r: Vec<F>)
    requires
        a.len() == b.len(),
    ensures
        vector_values(r@) == pointwise_product(
            F::modulus(),
            vector_values(a@),
            vector_values(b@),
        ),
{
    let mut r: Vec<F> = Vec::with_capacity(a.len());
    let mut k: usize = 0;
    while k < a.len()
        invariant
            k <= a.len(),
            a.len() == b.len(),
            r.len() == k,
            forall|t: int|
                0 <= t < k ==> (#[trigger] r[t]).value() == (a[t].value() * b[t].value())
                    % F::modulus(),
        decreases a.len() - k,
    {
        r.push(a[k].times(&b[k]));
        k += 1;
    }
    assert(vector_values(r@) =~= pointwise_product(
        F::modulus(),
        vector_values(a@),
        vector_values(b@),
    ));
    r
}

/// The dot product of two vectors, over the positions that both have.
pub fn vec_mul<F: FieldElement>(a: &[F], b: &[F]) -> (r: F)
    ensures
        r.value() == dot(vector_values(a@), vector_values(b@)) % F::modulus(),
{
    let n = if a.len() <= b.len() {
        a.len()
    } else {
        b.len()
    };
    let mut acc = F::zero();
    let mut k: usize = 0;
    proof {
        F::lemma_modulus();
        lemma_small_mod(0, F::modulus() as nat);
    }
    while k < n
        invariant
            k <= n,
            n == common_len(vector_values(a@), vector_values(b@)),
            n <= a.len(),
            n <= b.len(),
            F::modulus() > 1,
            acc.value() == dot_prefix(vector_values(a@), vector_values(b@), k as int)
                % F::modulus(),
        decreases n - k,
    {
        let tmp = a[k].times(&b[k]);
        proof {
            lemma_add_mod_noop(
                dot_prefix(vector_values(a@), vector_values(b@), k as int),
                a[k as int].value() * b[k as int].value(),
                F::modulus(),
            );
        }
        acc = acc.plus(&tmp);
        k += 1;
    }
    acc
}

/// The element-wise sum of two vectors of one length.
pub fn vec_add<F: FieldElement>(a: &[F], b: &[F]) -> (r: Vec<F>)
    requires
        a.len() == b.len(),
    ensures
        vector_values(r@) == pointwise_sum(F::modulus(), vector_values(a@), vector_values(b@)),
{
    let mut r: Vec<F> = Vec::with_capacity(a.len());
    let mut k: usize = 0;
    while k < a.len()
        invariant
            k <= a.len(),
            a.len() == b.len(),
            r.len() == k,
            forall|t: int|
                0 <= t < k ==> (#[trigger] r[t]).value() == (a[t].value() + b[t].value())
                    % F::modulus(),
        decreases a.len() - k,
    {
        r.push(a[k].plus(&b[k]));
        k += 1;
    }
    assert(vector_values(r@) =~= pointwise_sum(
        F::modulus(),
        vector_values(a@),
        vector_values(b@),
    ));
    r
}

/// The element-wise difference of two vectors of one length.
pub fn vec_sub<F: FieldElement>(a: &[F], b: &[F]) -> (r: Vec<F>)
    requires
        a.len() == b.len(),
    ensures
        vector_values(r@) == pointwise_difference(
            F::modulus(),
            vector_values(a@),
            vector_values(b@),
        ),
{
    let mut r: Vec<F> = Vec::with_capacity(a.len());
    let mut k: usize = 0;
    while k < a.len()
        invariant
            k <= a.len(),
            a.len() == b.len(),
            r.len() == k,
            forall|t: int|
                0 <= t < k ==> (#[trigger] r[t]).value() == (a[t].value() - b[t].value())
                    % F::modulus(),
        decreases a.len() - k,
    {
        r.push(a[k].minus(&b[k]));
        k += 1;
    }
    assert(vector_values(r@) =~= pointwise_difference(
        F::modulus(),
        vector_values(a@),
        vector_values(b@),
    ));
    r
}

/// The square matrix `m` times `v`, taken as a column vector.
pub fn left_apply_matrix<F: FieldElement>(m: &Matrix<F>, v: &[F]) -> (r: Vec<F>)
    requires
        is_square_matrix(grid(m@)),
        m.len() == v.len(),
    ensures
        vector_values(r@) == applied_left(F::modulus(), matrix_values(m@), vector_values(v@)),
{
    let mut r: Vec<F> = Vec::with_capacity(v.len());
    let mut i: usize = 0;
    while i < v.len()
        invariant
            i <= v.len(),
            m.len() == v.len(),
            r.len() == i,
            forall|t: int|
                0 <= t < i ==> (#[trigger] r[t]).value() == dot(
                    vector_values(m[t]@),
                    vector_values(v@),
                ) % F::modulus(),
        decreases v.len() - i,
    {
        r.push(vec_mul(m[i].as_slice(), v));
        i += 1;
    }
    assert(vector_values(r@) =~= applied_left(
        F::modulus(),
        matrix_values(m@),
        vector_values(v@),
    ));
    r
}

/// `v`, taken as a row vector, times the square matrix `m`.
pub fn apply_matrix<F: FieldElement>(m: &Matrix<F>, v: &[F]) -> (r: Vec<F>)
    requires
        is_square_matrix(grid(m@)),
        m.len() == v.len(),
    ensures
        vector_values(r@) == applied(F::modulus(), matrix_values(m@), vector_values(v@)),
{
    let n = v.len();
    let mut r: Vec<F> = Vec::with_capacity(n);
    let mut j: usize = 0;
    proof {
        F::lemma_modulus();
        lemma_small_mod(0, F::modulus() as nat);
    }
    while j < n
        invariant
            j <= n,
            n == v.len(),
            m.len() == n,
            is_square_matrix(grid(m@)),
            F::modulus() > 1,
            0int % F::modulus() == 0,
            r.len() == j,
            forall|t: int|
                0 <= t < j ==> (#[trigger] r[t]).value() == dot(
                    column(matrix_values(m@), t),
                    vector_values(v@),
                ) % F::modulus(),
        decreases n - j,
    {
        let mut acc = F::zero();
        let mut i: usize = 0;
        while i < n
            invariant
                i <= n,
                j < n,
                n == v.len(),
                m.len() == n,
                is_square_matrix(grid(m@)),
                F::modulus() > 1,
                acc.value() == dot_prefix(
                    column(matrix_values(m@), j as int),
                    vector_values(v@),
                    i as int,
                ) % F::modulus(),
            decreases n - i,
        {
            assert(grid(m@)[i as int].len() == n);
            let tmp = m[i][j].times(&v[i]);
            proof {
                lemma_add_mod_noop(
                    dot_prefix(column(matrix_values(m@), j as int), vector_values(v@), i as int),
                    m[i as int][j as int].value() * v[i as int].value(),
                    F::modulus(),
                );
            }
            acc = acc.plus(&tmp);
            i += 1;
        }
        r.push(acc);
        j += 1;
    }
    assert(vector_values(r@) =~= applied(F::modulus(), matrix_values(m@), vector_values(v@)));
    r
}

/// The transpose of a square matrix.
pub fn transpose<F: FieldElement>(matrix: &Matrix<F>) -> (r: Matrix<F>)
    requires
        is_square_matrix(grid(matrix@)),
    ensures
        grid(r@) == transposed(grid(matrix@)),
        matrix_values(r@) == transposed(matrix_values(matrix@)),
{
    let size = rows(matrix);
    let mut r: Matrix<F> = Vec::with_capacity(size);
    let mut j: usize = 0;
    while j < size
        invariant
            j <= size,
            size == matrix.len(),
            is_square_matrix(grid(matrix@)),
            r.len() == j,
            forall|t: int| 0 <= t < j ==> (#[trigger] r[t])@ == column(grid(matrix@), t),
        decreases size - j,
    {
        let mut row: Vec<F> = Vec::with_capacity(size);
        let mut i: usize = 0;
        while i < size
            invariant
                i <= size,
                j < size,
                size == matrix.len(),
                is_square_matrix(grid(matrix@)),
                row.len() == i,
                forall|t: int| 0 <= t < i ==> #[trigger] row[t] == matrix[t][j as int],
            decreases size - i,
        {
            assert(grid(matrix@)[i as int].len() == size);
            row.push(matrix[i][j]);
            i += 1;
        }
        assert(row@ =~= column(grid(matrix@), j as int));
        r.push(row);
        j += 1;
    }
    assert(grid(r@) =~~= transposed(grid(matrix@)));
    assert(matrix_values(r@) =~~= transposed(matrix_values(matrix@)));
    r
}

/// The identity matrix of the given size.
pub fn make_identity<F: FieldElement>(size: usize) -> (r: Matrix<F>)
    ensures
        matrix_values(r@) == identity(size as nat),
        is_square_matrix(grid(r@)),
        r.len() == size,
        is_identity_matrix(matrix_values(r@)),
{
    let mut r: Matrix<F> = Vec::with_capacity(size);
    let mut i: usize = 0;
    while i < size
        invariant
            i <= size,
            r.len() == i,
            forall|t: int|
                0 <= t < i ==> vector_values((#[trigger] r[t])@) == identity(size as nat)[t],
        decreases size - i,
    {
        let mut row: Vec<F> = Vec::with_capacity(size);
        let mut j: usize = 0;
        while j < size
            invariant
                j <= size,
                i < size,
                row.len() == j,
                forall|t: int|
                    0 <= t < j ==> (#[trigger] row[t]).value() == if i as int == t {
                        1int
                    } else {
                        0int
                    },
            decreases size - j,
        {
            if i == j {
                row.push(F::one());
            } else {
                row.push(F::zero());
            }
            j += 1;
        }
        assert(vector_values(row@) =~= identity(size as nat)[i as int]);
        r.push(row);
        i += 1;
    }
    assert(matrix_values(r@) =~~= identity(size as nat));
    assert forall|t: int| 0 <= t < r.len() implies (#[trigger] grid(r@)[t]).len() == size by {
        assert(vector_values(r[t]@).len() == size);
    }
    r
}

/// Whether a well-formed matrix is an identity matrix.
pub fn is_identity<F: FieldElement>(matrix: &Matrix<F>) -> (r: bool)
    requires
        is_matrix(grid(matrix@)),
    ensures
        r == is_identity_matrix(matrix_values(matrix@)),
{
    let one = F::one();
    let zero = F::zero();
    let n = rows(matrix);
    let w = columns(matrix);
    let mut i: usize = 0;
    while i < n
        invariant
            i <= n,
            n == matrix.len(),
            w == width(grid(matrix@)),
            w == width(matrix_values(matrix@)),
            is_matrix(grid(matrix@)),
            one.value() == 1,
            zero.value() == 0,
            forall|s: int, t: int|
                0 <= s < i && 0 <= t < w ==> #[trigger] matrix_values(matrix@)[s][t] == if s == t {
                    1int
                } else {
                    0int
                },
        decreases n - i,
    {
        let mut j: usize = 0;
        while j < w
            invariant
                j <= w,
                i < n,
                n == matrix.len(),
                w == width(grid(matrix@)),
                w == width(matrix_values(matrix@)),
                is_matrix(grid(matrix@)),
                one.value() == 1,
                zero.value() == 0,
                forall|s: int, t: int|
                    0 <= s < i && 0 <= t < w ==> #[trigger] matrix_values(matrix@)[s][t] == if s
                        == t {
                        1int
                    } else {
                        0int
                    },
                forall|t: int|
                    0 <= t < j ==> #[trigger] matrix_values(matrix@)[i as int][t] == if i as int
                        == t {
                        1int
                    } else {
                        0int
                    },
            decreases w - j,
        {
            assert(grid(matrix@)[i as int].len() == w);
            let expected = if i == j {
                one
            } else {
                zero
            };
            let entry = matrix[i][j];
            assert(matrix_values(matrix@)[i as int][j as int] == entry.value());
            if !entry.equals(&expected) {
                return false;
            }
            j += 1;
        }
        i += 1;
    }
    true
}

/// The product of `a` and the square matrix `b`, for an `a` with as many rows
/// as `b` has columns; `None` for any other `a`.
pub fn mat_mul<F: FieldElement>(a: &Matrix<F>, b: &Matrix<F>) -> (r: Option<Matrix<F>>)
    requires
        is_matrix(grid(b@)),
        a.len() == width(grid(b@)) ==> is_square_matrix(grid(b@)),
    ensures
        r is None <==> a.len() != width(grid(b@)),
        r is Some ==> matrix_values(r.unwrap()@) == product(
            F::modulus(),
            matrix_values(a@),
            matrix_values(b@),
        ),
{
    if rows(a) != columns(b) {
        return None;
    }
    let b_t = transpose(b);
    assert(grid(b_t@).len() == b_t.len());
    let n = rows(a);
    let w = columns(b);
    let mut res: Matrix<F> = Vec::with_capacity(n);
    let mut i: usize = 0;
    while i < n
        invariant
            i <= n,
            n == a.len(),
            w == width(grid(b@)),
            w == width(matrix_values(b@)),
            w == n,
            b_t.len() == w,
            matrix_values(b_t@) == transposed(matrix_values(b@)),
            res.len() == i,
            forall|s: int|
                0 <= s < i ==> vector_values((#[trigger] res[s])@) == product(
                    F::modulus(),
                    matrix_values(a@),
                    matrix_values(b@),
                )[s],
        decreases n - i,
    {
        let mut row: Vec<F> = Vec::with_capacity(w);
        let mut j: usize = 0;
        while j < w
            invariant
                j <= w,
                i < n,
                n == a.len(),
                w == width(matrix_values(b@)),
                b_t.len() == w,
                matrix_values(b_t@) == transposed(matrix_values(b@)),
                row.len() == j,
                forall|t: int|
                    0 <= t < j ==> (#[trigger] row[t]).value() == dot(
                        vector_values(a[i as int]@),
                        column(matrix_values(b@), t),
                    ) % F::modulus(),
            decreases w - j,
        {
            assert(vector_values(b_t[j as int]@) == matrix_values(b_t@)[j as int]);
            row.push(vec_mul(a[i].as_slice(), b_t[j].as_slice()));
            j += 1;
        }
        assert(vector_values(row@) =~= product(
            F::modulus(),
            matrix_values(a@),
            matrix_values(b@),
        )[i as int]);
        res.push(row);
        i += 1;
    }
    assert(matrix_values(res@) =~~= product(F::modulus(), matrix_values(a@), matrix_values(b@)));
    Some(res)
}

/// The square matrix `matrix` without row `i` and column `j`.
pub fn minor<F: FieldElement>(matrix: &Matrix<F>, i: usize, j: usize) -> (r: Matrix<F>)
    requires
        is_square_matrix(grid(matrix@)),
        i < matrix.len(),
        j < matrix.len(),
    ensures
        grid(r@) == minor_of(grid(matrix@), i as int, j as int),
        matrix_values(r@) == minor_of(matrix_values(matrix@), i as int, j as int),
        is_square_matrix(grid(r@)),
        r.len() == matrix.len() - 1,
{
    let size = rows(matrix);
    let new_size = size - 1;
    let mut res: Matrix<F> = Vec::with_capacity(new_size);
    let mut ii: usize = 0;
    while ii < size
        invariant
            ii <= size,
            size == matrix.len(),
            new_size == size - 1,
            i < size,
            j < size,
            is_square_matrix(grid(matrix@)),
            res.len() == if ii <= i {
                ii as int
            } else {
                ii - 1
            },
            forall|s: int|
                0 <= s < res.len() ==> (#[trigger] res[s])@ == minor_of(
                    grid(matrix@),
                    i as int,
                    j as int,
                )[s],
        decreases size - ii,
    {
        if ii != i {
            let mut row: Vec<F> = Vec::with_capacity(new_size);
            let mut jj: usize = 0;
            while jj < size
                invariant
                    jj <= size,
                    ii < size,
                    ii != i,
                    size == matrix.len(),
                    j < size,
                    is_square_matrix(grid(matrix@)),
                    row.len() == if jj <= j {
                        jj as int
                    } else {
                        jj - 1
                    },
                    forall|t: int|
                        0 <= t < row.len() ==> #[trigger] row[t] == matrix[ii as int][skip_index(
                            t,
                            j as int,
                        )],
                decreases size - jj,
            {
                assert(grid(matrix@)[ii as int].len() == size);
                if jj != j {
                    row.push(matrix[ii][jj]);
                }
                jj += 1;
            }
            assert(row@ =~= minor_of(grid(matrix@), i as int, j as int)[res.len() as int]);
            res.push(row);
        }
        ii += 1;
    }
    assert(grid(res@) =~~= minor_of(grid(matrix@), i as int, j as int));
    assert(matrix_values(res@) =~~= minor_of(matrix_values(matrix@), i as int, j as int));
    assert forall|t: int| 0 <= t < res.len() implies (#[trigger] grid(res@)[t]).len()
        == new_size by {
        assert(res[t]@ == minor_of(grid(matrix@), i as int, j as int)[t]);
    }
    res
}

} // verus!
