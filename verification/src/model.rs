//! The mathematical model: matrices of integers, read modulo the field's order.
//!
//! A field element is modelled by its canonical representative, a vector by a
//! `Seq<int>` and a matrix by a `Seq<Seq<int>>` of rows. Sums and products are
//! taken over the integers; a result of the field is such an integer reduced
//! modulo the order `p`.

use crate::field::FieldElement;
use vstd::prelude::*;

verus! {

/// The rows of an executable matrix, each as a sequence.
pub open spec fn grid<T>(m: Seq<Vec<T>>) -> Seq<Seq<T>> {
    Seq::new(m.len(), |i: int| m[i]@)
}

/// The representatives of a vector of field elements.
pub open spec fn vector_values<F: FieldElement>(v: Seq<F>) -> Seq<int> {
    Seq::new(v.len(), |k: int| v[k].value())
}

/// The representatives of a matrix of field elements.
pub open spec fn matrix_values<F: FieldElement>(m: Seq<Vec<F>>) -> Seq<Seq<int>> {
    Seq::new(m.len(), |i: int| vector_values(m[i]@))
}

/// The representatives of a matrix have the shape of the matrix.
pub proof fn lemma_values_shape<F: FieldElement>(m: Seq<Vec<F>>)
    ensures
        matrix_values(m).len() == m.len(),
        width(matrix_values(m)) == width(grid(m)),
        is_matrix(matrix_values(m)) == is_matrix(grid(m)),
        is_square_matrix(matrix_values(m)) == is_square_matrix(grid(m)),
{
    let v = matrix_values(m);
    let g = grid(m);
    assert forall|i: int| 0 <= i < m.len() implies (#[trigger] v[i]).len() == g[i].len() by {}
    if is_matrix(g) {
        assert forall|i: int| 0 <= i < v.len() implies (#[trigger] v[i]).len() == v[0].len() by {
            assert(g[i].len() == g[0].len());
        }
    }
    if is_matrix(v) {
        assert forall|i: int| 0 <= i < g.len() implies (#[trigger] g[i]).len() == g[0].len() by {
            assert(v[i].len() == v[0].len());
        }
    }
}

/// All rows have the length of the first.
pub open spec fn is_matrix<T>(m: Seq<Seq<T>>) -> bool {
    forall|i: int| 0 <= i < m.len() ==> (#[trigger] m[i]).len() == m[0].len()
}

/// The number of columns: the length of the first row, 0 without rows.
pub open spec fn width<T>(m: Seq<Seq<T>>) -> nat {
    if m.len() > 0 {
        m[0].len()
    } else {
        0
    }
}

/// A well-formed matrix with as many rows as columns.
pub open spec fn is_square_matrix<T>(m: Seq<Seq<T>>) -> bool {
    is_matrix(m) && width(m) == m.len()
}

/// Column `j` of a matrix, top to bottom.
pub open spec fn column<T>(m: Seq<Seq<T>>, j: int) -> Seq<T> {
    Seq::new(m.len(), |i: int| m[i][j])
}

/// The transpose: row `j` of the result is column `j` of `m`.
pub open spec fn transposed<T>(m: Seq<Seq<T>>) -> Seq<Seq<T>> {
    Seq::new(width(m), |j: int| column(m, j))
}

/// The `n` by `n` identity.
pub open spec fn identity(n: nat) -> Seq<Seq<int>> {
    Seq::new(n, |i: int| Seq::new(n, |j: int| if i == j { 1int } else { 0int }))
}

/// Every entry is 1 on the diagonal and 0 off it.
pub open spec fn is_identity_matrix(m: Seq<Seq<int>>) -> bool {
    forall|i: int, j: int|
        0 <= i < m.len() && 0 <= j < width(m) ==> #[trigger] m[i][j] == if i == j {
            1int
        } else {
            0int
        }
}

/// Every element of `v` times `s`.
pub open spec fn scaled(p: int, s: int, v: Seq<int>) -> Seq<int> {
    Seq::new(v.len(), |k: int| (s * v[k]) % p)
}

/// Every element of `m` times `s`.
pub open spec fn scaled_matrix(p: int, s: int, m: Seq<Seq<int>>) -> Seq<Seq<int>> {
    Seq::new(m.len(), |i: int| scaled(p, s, m[i]))
}

/// The element-wise sum of two vectors of one length.
pub open spec fn pointwise_sum(p: int, a: Seq<int>, b: Seq<int>) -> Seq<int> {
    Seq::new(a.len(), |k: int| (a[k] + b[k]) % p)
}

/// The element-wise difference of two vectors of one length.
pub open spec fn pointwise_difference(p: int, a: Seq<int>, b: Seq<int>) -> Seq<int> {
    Seq::new(a.len(), |k: int| (a[k] - b[k]) % p)
}

/// The element-wise product of two vectors of one length.
pub open spec fn pointwise_product(p: int, a: Seq<int>, b: Seq<int>) -> Seq<int> {
    Seq::new(a.len(), |k: int| (a[k] * b[k]) % p)
}

/// The sum of `a[k] * b[k]` over `k < n`, as an integer.
pub open spec fn dot_prefix(a: Seq<int>, b: Seq<int>, n: int) -> int
    decreases n,
{
    if n <= 0 {
        0
    } else {
        dot_prefix(a, b, n - 1) + a[n - 1] * b[n - 1]
    }
}

/// The number of positions that two vectors share.
pub open spec fn common_len(a: Seq<int>, b: Seq<int>) -> int {
    if a.len() <= b.len() {
        a.len() as int
    } else {
        b.len() as int
    }
}

/// The dot product over the positions that both vectors have, as an integer.
pub open spec fn dot(a: Seq<int>, b: Seq<int>) -> int {
    dot_prefix(a, b, common_len(a, b))
}

/// The product of `a` and `b`: entry `(i, j)` is row `i` of `a` times column
/// `j` of `b`.
pub open spec fn product(p: int, a: Seq<Seq<int>>, b: Seq<Seq<int>>) -> Seq<Seq<int>> {
    Seq::new(a.len(), |i: int| Seq::new(width(b), |j: int| dot(a[i], column(b, j)) % p))
}

/// `m` times the column vector `v`.
pub open spec fn applied_left(p: int, m: Seq<Seq<int>>, v: Seq<int>) -> Seq<int> {
    Seq::new(v.len(), |i: int| dot(m[i], v) % p)
}

/// The row vector `v` times `m`.
pub open spec fn applied(p: int, m: Seq<Seq<int>>, v: Seq<int>) -> Seq<int> {
    Seq::new(v.len(), |j: int| dot(column(m, j), v) % p)
}

/// The index in the whole of position `k` of what is left without position `j`.
pub open spec fn skip_index(k: int, j: int) -> int {
    if k < j {
        k
    } else {
        k + 1
    }
}

/// The position in what is left without position `j` of index `k` of the
/// whole, for `k` other than `j`.
pub open spec fn unskip_index(k: int, j: int) -> int {
    if k < j {
        k
    } else {
        k - 1
    }
}

/// `m` without row `i` and column `j`.
pub open spec fn minor_of<T>(m: Seq<Seq<T>>, i: int, j: int) -> Seq<Seq<T>> {
    Seq::new(
        (m.len() - 1) as nat,
        |r: int| Seq::new((m.len() - 1) as nat, |c: int| m[skip_index(r, i)][skip_index(c, j)]),
    )
}

/// 1 for an even argument, -1 for an odd one.
pub open spec fn sign(k: int) -> int {
    if k % 2 == 0 {
        1
    } else {
        -1
    }
}

/// The determinant that a cofactor is built on: that of the minor, and 1
/// where the matrix is a single entry.
pub open spec fn minor_determinant(m: Seq<Seq<int>>, i: int, j: int) -> int
    decreases m.len(), 0int, 0int,
{
    if m.len() <= 1 {
        1
    } else {
        det(minor_of(m, i, j))
    }
}

/// The cofactor at `(i, j)`: the determinant of the minor, negated where
/// `i + j` is odd.
pub open spec fn cofactor_of(m: Seq<Seq<int>>, i: int, j: int) -> int
    decreases m.len(), 1int, 0int,
{
    sign(i + j) * minor_determinant(m, i, j)
}

/// The sum of `m[i][j] * cofactor_of(m, i, j)` over `j < k`.
pub open spec fn laplace(m: Seq<Seq<int>>, i: int, k: int) -> int
    decreases m.len(), 2int, k,
{
    if k <= 0 {
        0
    } else {
        laplace(m, i, k - 1) + m[i][k - 1] * cofactor_of(m, i, k - 1)
    }
}

/// The determinant, by expansion along the first row; 0 for the empty matrix.
pub open spec fn det(m: Seq<Seq<int>>) -> int
    decreases m.len(), 3int, 0int,
{
    if m.len() == 0 {
        0
    } else {
        laplace(m, 0, m.len() as int)
    }
}

/// The cofactors of row `i`, as integers.
pub open spec fn cofactor_row(m: Seq<Seq<int>>, i: int) -> Seq<int> {
    Seq::new(m.len(), |j: int| cofactor_of(m, i, j))
}

/// The cofactors of column `j`, as integers.
pub open spec fn cofactor_column(m: Seq<Seq<int>>, j: int) -> Seq<int> {
    Seq::new(m.len(), |i: int| cofactor_of(m, i, j))
}

/// The matrix of all cofactors, reduced.
pub open spec fn cofactors(p: int, m: Seq<Seq<int>>) -> Seq<Seq<int>> {
    Seq::new(m.len(), |i: int| Seq::new(m.len(), |j: int| cofactor_of(m, i, j) % p))
}

/// The block of the first `k` rows and columns.
pub open spec fn leading(m: Seq<Seq<int>>, k: int) -> Seq<Seq<int>> {
    Seq::new(k as nat, |r: int| m[r].take(k))
}

/// No leading block, from the first entry alone to the whole matrix, has
/// determinant zero in the field.
pub open spec fn leading_minors_nonzero(p: int, m: Seq<Seq<int>>) -> bool {
    forall|k: int| 1 <= k <= m.len() ==> det(#[trigger] leading(m, k)) % p != 0
}

/// `a` has a multiplicative inverse modulo `p`.
pub open spec fn has_inverse(p: int, a: int) -> bool {
    exists|x: int| is_inverse_of(p, a, x)
}

/// `x` is the reduced multiplicative inverse of `a` modulo `p`.
pub open spec fn is_inverse_of(p: int, a: int, x: int) -> bool {
    0 <= x < p && (a * x) % p == 1
}

/// The multiplicative inverse of `a` modulo `p`, where it has one.
pub open spec fn inverse_of(p: int, a: int) -> int {
    choose|x: int| is_inverse_of(p, a, x)
}

/// `p` is the order of a field: every residue other than zero has an inverse.
pub open spec fn is_field_order(p: int) -> bool {
    p > 1 && forall|a: int| a % p != 0 ==> #[trigger] has_inverse(p, a)
}

/// The inverse of a square matrix as its adjugate over its determinant:
/// entry `(i, j)` is the cofactor at `(j, i)` times the inverse of the
/// determinant.
pub open spec fn inverse_matrix(p: int, m: Seq<Seq<int>>) -> Seq<Seq<int>> {
    Seq::new(
        m.len(),
        |i: int|
            Seq::new(
                m.len(),
                |j: int| (inverse_of(p, det(m) % p) * (cofactor_of(m, j, i) % p)) % p,
            ),
    )
}

} // verus!
