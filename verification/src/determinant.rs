//! Determinants by cofactor expansion, and inversion by the adjugate.

use crate::congruence::lemma_inverse_of;
use crate::field::FieldElement;
use crate::matrix::{Matrix, columns, is_square, minor, rows, scalar_mul, transpose, vec_mul};
use crate::laplace::lemma_inverse_matrix_right;
use crate::transposition::lemma_inverse_matrix_left;
use crate::model::{
    cofactor_of, cofactors, common_len, det, dot, dot_prefix, grid, identity, inverse_matrix,
    is_matrix, is_square_matrix, laplace, lemma_values_shape, matrix_values, minor_determinant,
    product, sign, vector_values,
};
use vstd::arithmetic::div_mod::{
    lemma_add_mod_noop, lemma_mod_twice, lemma_mul_mod_noop_right, lemma_small_mod,
    lemma_sub_mod_noop_right,
};
use vstd::prelude::*;

verus! {

/// The determinant of a square matrix, by expansion along its first row.
pub fn determinant<F: FieldElement>(matrix: &Matrix<F>) -> (r: F)
    requires
        is_square_matrix(grid(matrix@)),
    ensures
        r.value() == det(matrix_values(matrix@)) % F::modulus(),
    decreases matrix.len(), 1int,
{
    let n = columns(matrix);
    let mut acc = F::zero();
    let mut j: usize = 0;
    proof {
        F::lemma_modulus();
        lemma_small_mod(0, F::modulus() as nat);
    }
    while j < n
        invariant
            j <= n,
            n == matrix.len(),
            is_square_matrix(grid(matrix@)),
            F::modulus() > 1,
            acc.value() == laplace(matrix_values(matrix@), 0, j as int) % F::modulus(),
        decreases n - j,
    {
        assert(grid(matrix@)[0].len() == n);
        let entry = matrix[0][j];
        let cof = cofactor(matrix, 0, j);
        let tmp = entry.times(&cof);
        proof {
            let m = matrix_values(matrix@);
            assert(m[0][j as int] == entry.value());
            lemma_mul_mod_noop_right(m[0][j as int], cofactor_of(m, 0, j as int), F::modulus());
            lemma_add_mod_noop(
                laplace(m, 0, j as int),
                m[0][j as int] * cofactor_of(m, 0, j as int),
                F::modulus(),
            );
        }
        acc = acc.plus(&tmp);
        j += 1;
    }
    acc
}

/// The cofactor of a square matrix at `(i, j)`.
pub fn cofactor<F: FieldElement>(matrix: &Matrix<F>, i: usize, j: usize) -> (r: F)
    requires
        is_square_matrix(grid(matrix@)),
        i < matrix.len(),
        j < matrix.len(),
    ensures
        r.value() == cofactor_of(matrix_values(matrix@), i as int, j as int) % F::modulus(),
    decreases matrix.len(), 0int,
{
    proof {
        F::lemma_modulus();
        lemma_small_mod(1, F::modulus() as nat);
    }
    let minor_det = if rows(matrix) == 1 {
        F::one()
    } else {
        let m = minor(matrix, i, j);
        determinant(&m)
    };
    let ghost d = minor_determinant(matrix_values(matrix@), i as int, j as int);
    assert(minor_det.value() == d % F::modulus());
    let acc = F::zero();
    if i % 2 == j % 2 {
        proof {
            lemma_mod_twice(d, F::modulus());
            assert(sign(i + j) == 1);
            assert(sign(i + j) * d == d) by (nonlinear_arith)
                requires
                    sign(i + j) == 1,
            ;
        }
        acc.plus(&minor_det)
    } else {
        proof {
            lemma_sub_mod_noop_right(0, d, F::modulus());
            assert(sign(i + j) == -1);
            assert(sign(i + j) * d == 0 - d) by (nonlinear_arith)
                requires
                    sign(i + j) == -1,
            ;
        }
        acc.minus(&minor_det)
    }
}

/// The sum of the products of the first rows of `matrix` and
/// `cofactor_matrix`, element by element.
pub fn determinant_with_cofactor_matrix<F: FieldElement>(
    matrix: &Matrix<F>,
    cofactor_matrix: &Matrix<F>,
) -> (r: F)
    requires
        matrix.len() > 0,
        cofactor_matrix.len() > 0,
    ensures
        r.value() == dot(
            matrix_values(matrix@)[0],
            matrix_values(cofactor_matrix@)[0],
        ) % F::modulus(),
{
    vec_mul(matrix[0].as_slice(), cofactor_matrix[0].as_slice())
}

/// The matrix of all cofactors of a square matrix.
pub fn cofactor_matrix<F: FieldElement>(matrix: &Matrix<F>) -> (r: Matrix<F>)
    requires
        is_square_matrix(grid(matrix@)),
    ensures
        matrix_values(r@) == cofactors(F::modulus(), matrix_values(matrix@)),
        is_square_matrix(grid(r@)),
        r.len() == matrix.len(),
{
    let size = rows(matrix);
    let mut m: Matrix<F> = Vec::with_capacity(size);
    let mut i: usize = 0;
    while i < size
        invariant
            i <= size,
            size == matrix.len(),
            is_square_matrix(grid(matrix@)),
            m.len() == i,
            forall|s: int|
                0 <= s < i ==> vector_values((#[trigger] m[s])@) == cofactors(
                    F::modulus(),
                    matrix_values(matrix@),
                )[s],
        decreases size - i,
    {
        let mut row: Vec<F> = Vec::with_capacity(size);
        let mut j: usize = 0;
        while j < size
            invariant
                j <= size,
                i < size,
                size == matrix.len(),
                is_square_matrix(grid(matrix@)),
                row.len() == j,
                forall|t: int|
                    0 <= t < j ==> (#[trigger] row[t]).value() == cofactor_of(
                        matrix_values(matrix@),
                        i as int,
                        t,
                    ) % F::modulus(),
            decreases size - j,
        {
            row.push(cofactor(matrix, i, j));
            j += 1;
        }
        assert(vector_values(row@) =~= cofactors(F::modulus(), matrix_values(matrix@))[i as int]);
        m.push(row);
        i += 1;
    }
    assert(matrix_values(m@) =~~= cofactors(F::modulus(), matrix_values(matrix@)));
    assert forall|t: int| 0 <= t < m.len() implies (#[trigger] grid(m@)[t]).len() == size by {
        assert(vector_values(m[t]@).len() == size);
    }
    m
}

/// `dot_prefix` of a row and its reduced cofactors is congruent to the
/// expansion along that row.
pub proof fn lemma_dot_with_cofactors(p: int, m: Seq<Seq<int>>, i: int, k: int)
    requires
        p > 0,
        0 <= i < m.len(),
        0 <= k <= m.len(),
    ensures
        dot_prefix(m[i], cofactors(p, m)[i], k) % p == laplace(m, i, k) % p,
    decreases k,
{
    if k > 0 {
        lemma_dot_with_cofactors(p, m, i, k - 1);
        let c = cofactor_of(m, i, k - 1);
        assert(cofactors(p, m)[i][k - 1] == c % p);
        lemma_mul_mod_noop_right(m[i][k - 1], c, p);
        lemma_add_mod_noop(dot_prefix(m[i], cofactors(p, m)[i], k - 1), m[i][k - 1] * (c % p), p);
        lemma_add_mod_noop(laplace(m, i, k - 1), m[i][k - 1] * c, p);
    }
}

/// The inverse of a square matrix with at least one row, by its adjugate and
/// determinant; `None` exactly for a matrix whose determinant is zero. The
/// product of the matrix and the inverse, in either order, is the identity.
pub fn invert_with_cofactors<F: FieldElement>(matrix: &Matrix<F>) -> (r: Option<Matrix<F>>)
    requires
        is_square_matrix(grid(matrix@)),
        matrix.len() > 0,
    ensures
        r is None <==> det(matrix_values(matrix@)) % F::modulus() == 0,
        r is Some ==> matrix_values(r.unwrap()@) == inverse_matrix(
            F::modulus(),
            matrix_values(matrix@),
        ),
        r is Some ==> product(
            F::modulus(),
            matrix_values(matrix@),
            matrix_values(r.unwrap()@),
        ) == identity(matrix.len() as nat),
        r is Some ==> product(
            F::modulus(),
            matrix_values(r.unwrap()@),
            matrix_values(matrix@),
        ) == identity(matrix.len() as nat),
{
    let cofactor_matrix = cofactor_matrix(matrix);
    let determinant = determinant_with_cofactor_matrix(matrix, &cofactor_matrix);
    let adjugate = transpose(&cofactor_matrix);
    let ghost p = F::modulus();
    let ghost m = matrix_values(matrix@);
    proof {
        F::lemma_modulus();
        assert(m[0].len() == m.len()) by {
            assert(grid(matrix@)[0].len() == matrix.len());
        }
        lemma_dot_with_cofactors(p, m, 0, m.len() as int);
        assert(common_len(m[0], cofactors(p, m)[0]) == m.len());
        assert(determinant.value() == det(m) % p);
    }
    match determinant.inverse() {
        None => None,
        Some(inv) => {
            let r = scalar_mul(inv, &adjugate);
            proof {
                inv.lemma_value();
                lemma_inverse_of(p, det(m) % p, inv.value());
                assert(matrix_values(r@) =~~= inverse_matrix(p, m));
                lemma_values_shape(matrix@);
                lemma_inverse_matrix_right(p, m);
                lemma_inverse_matrix_left(p, m);
            }
            Some(r)
        },
    }
}

/// Whether a well-formed matrix is square with a determinant other than zero.
pub fn is_invertible<F: FieldElement>(matrix: &Matrix<F>) -> (r: bool)
    requires
        is_matrix(grid(matrix@)),
    ensures
        r == (is_square_matrix(grid(matrix@)) && det(matrix_values(matrix@)) % F::modulus() != 0),
{
    if !is_square(matrix) {
        return false;
    }
    let zero = F::zero();
    !determinant(matrix).equals(&zero)
}

} // verus!
