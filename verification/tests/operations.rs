use ff::{Field, PrimeField};
use field_matrix::{
    apply_matrix, cofactor, cofactor_matrix, columns, determinant,
    determinant_with_cofactor_matrix, eliminate, hadamard_vec_mul, is_identity, is_square,
    left_apply_matrix, make_identity, mat_mul, minor, rows, scalar_mul, scalar_vec_mul, solve,
    transpose, upper_triangular, vec_add, vec_mul, vec_sub, FieldElement, Matrix,
};
use paired::bls12_381::{Fr, FrRepr};

fn el(i: u64) -> Fr {
    Fr::from_repr(FrRepr::from(i)).unwrap()
}

fn neg(i: u64) -> Fr {
    let mut x = el(i);
    x.negate();
    x
}

fn mat(entries: &[&[u64]]) -> Matrix<Fr> {
    entries
        .iter()
        .map(|row| row.iter().map(|x| el(*x)).collect())
        .collect()
}

#[test]
fn field_element_operations_of_the_scalar_field() {
    let zero = <Fr as FieldElement>::zero();
    let one = <Fr as FieldElement>::one();
    assert_eq!(zero, el(0));
    assert_eq!(one, el(1));
    assert_eq!(el(7).plus(&el(5)), el(12));
    assert_eq!(el(7).minus(&el(5)), el(2));
    assert_eq!(el(5).minus(&el(7)), neg(2));
    assert_eq!(el(7).times(&el(5)), el(35));
    assert!(el(7).equals(&el(7)));
    assert!(!el(7).equals(&el(5)));
    assert!(FieldElement::inverse(&zero).is_none());
    let inv = FieldElement::inverse(&el(7)).unwrap();
    assert_eq!(inv.times(&el(7)), one);
    assert_ne!(inv, el(7));
}

#[test]
fn shape_of_a_matrix() {
    let m = mat(&[&[1, 2, 3], &[4, 5, 6]]);
    assert_eq!(rows(&m), 2);
    assert_eq!(columns(&m), 3);
    assert!(!is_square(&m));
    assert!(is_square(&mat(&[&[1, 2], &[3, 4]])));
}

#[test]
fn shape_of_the_empty_matrix() {
    let m: Matrix<Fr> = Vec::new();
    assert_eq!(rows(&m), 0);
    assert_eq!(columns(&m), 0);
    assert!(is_square(&m));
}

#[test]
fn scalar_vec_mul_multiplies_each_element() {
    let v = vec![el(0), el(1), el(5)];
    assert_eq!(scalar_vec_mul::<Fr>(el(3), &v), vec![el(0), el(3), el(15)]);
    assert_eq!(scalar_vec_mul::<Fr>(el(3), &[]), Vec::<Fr>::new());
}

#[test]
fn scalar_mul_keeps_the_shape() {
    let m = mat(&[&[1, 2, 3], &[4, 5, 6]]);
    assert_eq!(
        scalar_mul::<Fr>(el(2), &m),
        mat(&[&[2, 4, 6], &[8, 10, 12]])
    );
}

#[test]
fn hadamard_vec_mul_multiplies_element_by_element() {
    let a = vec![el(2), el(3), el(0)];
    let b = vec![el(4), el(5), el(9)];
    assert_eq!(
        hadamard_vec_mul::<Fr>(&a, &b),
        vec![el(8), el(15), el(0)]
    );
}

#[test]
fn vec_add_and_vec_sub_work_element_by_element() {
    let a = vec![el(1), el(2)];
    let b = vec![el(3), el(4)];
    assert_eq!(vec_add::<Fr>(&a, &b), vec![el(4), el(6)]);
    assert_eq!(vec_sub::<Fr>(&b, &a), vec![el(2), el(2)]);
    assert_eq!(vec_sub::<Fr>(&a, &b), vec![neg(2), neg(2)]);
}

#[test]
fn vec_sub_then_vec_add_gives_the_vector_back() {
    let a = vec![el(1), el(20), el(0)];
    let b = vec![el(30), el(4), el(0)];
    assert_eq!(vec_add::<Fr>(&vec_sub::<Fr>(&a, &b), &b), a);
}

#[test]
fn vec_mul_of_empty_vectors_is_zero() {
    assert_eq!(vec_mul::<Fr>(&[], &[]), el(0));
}

#[test]
fn vec_mul_stops_at_the_shorter_vector() {
    let a = vec![el(1), el(2), el(3)];
    let b = vec![el(4), el(5)];
    assert_eq!(vec_mul::<Fr>(&a, &b), el(14));
    assert_eq!(vec_mul::<Fr>(&b, &a), el(14));
}

#[test]
fn left_apply_matrix_takes_the_vector_as_a_column() {
    let m = mat(&[&[1, 2], &[3, 4]]);
    let v = vec![el(5), el(6)];
    assert_eq!(left_apply_matrix::<Fr>(&m, &v), vec![el(17), el(39)]);
}

#[test]
fn apply_matrix_takes_the_vector_as_a_row() {
    let m = mat(&[&[1, 2], &[3, 4]]);
    let v = vec![el(5), el(6)];
    assert_eq!(apply_matrix::<Fr>(&m, &v), vec![el(23), el(34)]);
}

#[test]
fn apply_matrix_is_left_apply_of_the_transpose() {
    let m = mat(&[&[1, 2, 3], &[4, 3, 6], &[5, 8, 7]]);
    let v = vec![el(9), el(1), el(4)];
    assert_eq!(
        apply_matrix::<Fr>(&m, &v),
        left_apply_matrix::<Fr>(&transpose::<Fr>(&m), &v)
    );
}

#[test]
fn applying_the_identity_changes_nothing() {
    let id = make_identity::<Fr>(3);
    let v = vec![el(9), el(1), el(4)];
    assert_eq!(apply_matrix::<Fr>(&id, &v), v);
    assert_eq!(left_apply_matrix::<Fr>(&id, &v), v);
}

#[test]
fn make_identity_has_ones_on_the_diagonal() {
    assert_eq!(make_identity::<Fr>(2), mat(&[&[1, 0], &[0, 1]]));
    assert_eq!(make_identity::<Fr>(0), Vec::<Vec<Fr>>::new());
}

#[test]
fn is_identity_tells_the_identity_from_others() {
    assert!(is_identity::<Fr>(&mat(&[&[1, 0], &[0, 1]])));
    assert!(!is_identity::<Fr>(&mat(&[&[1, 1], &[0, 1]])));
    assert!(!is_identity::<Fr>(&mat(&[&[1, 0], &[0, 2]])));
    assert!(!is_identity::<Fr>(&mat(&[&[0, 0], &[0, 0]])));
    assert!(is_identity::<Fr>(&Vec::new()));
}

#[test]
fn mat_mul_of_two_square_matrices() {
    let a = mat(&[&[1, 2], &[3, 4]]);
    let b = mat(&[&[5, 6], &[7, 8]]);
    assert_eq!(
        mat_mul::<Fr>(&a, &b).unwrap(),
        mat(&[&[19, 22], &[43, 50]])
    );
    assert_eq!(
        mat_mul::<Fr>(&b, &a).unwrap(),
        mat(&[&[23, 34], &[31, 46]])
    );
}

#[test]
fn mat_mul_by_the_identity_changes_nothing() {
    let a = mat(&[&[1, 2, 3], &[4, 3, 6], &[5, 8, 7]]);
    let id = make_identity::<Fr>(3);
    assert_eq!(mat_mul::<Fr>(&a, &id).unwrap(), a);
    assert_eq!(mat_mul::<Fr>(&id, &a).unwrap(), a);
}

#[test]
fn mat_mul_is_absent_when_rows_and_columns_differ() {
    let a = mat(&[&[1, 2], &[3, 4], &[5, 6]]);
    let b = mat(&[&[5, 6], &[7, 8]]);
    assert!(mat_mul::<Fr>(&a, &b).is_none());
    let c = mat(&[&[1, 2]]);
    assert!(mat_mul::<Fr>(&c, &b).is_none());
    let wide = mat(&[&[1, 2, 3], &[4, 5, 6]]);
    assert!(mat_mul::<Fr>(&b, &wide).is_none());
}

#[test]
fn minor_of_the_top_left_corner() {
    let m = mat(&[&[1, 2, 3], &[4, 5, 6], &[7, 8, 9]]);
    assert_eq!(minor::<Fr>(&m, 0, 0), mat(&[&[5, 6], &[8, 9]]));
}

#[test]
fn minor_of_a_single_entry_is_empty() {
    let m = mat(&[&[4]]);
    assert_eq!(minor::<Fr>(&m, 0, 0), Vec::<Vec<Fr>>::new());
}

#[test]
fn determinant_of_small_matrices() {
    assert_eq!(determinant::<Fr>(&Vec::new()), el(0));
    assert_eq!(determinant::<Fr>(&mat(&[&[5]])), el(5));
    assert_eq!(determinant::<Fr>(&mat(&[&[1, 2], &[3, 8]])), el(2));
    assert_eq!(determinant::<Fr>(&mat(&[&[3, 8], &[1, 2]])), neg(2));
    assert_eq!(
        determinant::<Fr>(&mat(&[&[1, 2, 3], &[4, 5, 6], &[7, 8, 8]])),
        el(3)
    );
    assert_eq!(
        determinant::<Fr>(&mat(&[&[1, 2, 3], &[4, 5, 6], &[7, 8, 9]])),
        el(0)
    );
}

#[test]
fn determinant_of_a_matrix_with_two_equal_rows_is_zero() {
    let m = mat(&[&[1, 2, 3, 4], &[9, 8, 7, 6], &[2, 5, 5, 1], &[9, 8, 7, 6]]);
    assert_eq!(determinant::<Fr>(&m), el(0));
}

#[test]
fn cofactor_carries_the_checkerboard_sign() {
    let m = mat(&[&[1, 2], &[3, 8]]);
    assert_eq!(cofactor::<Fr>(&m, 0, 0), el(8));
    assert_eq!(cofactor::<Fr>(&m, 0, 1), neg(3));
    assert_eq!(cofactor::<Fr>(&m, 1, 0), neg(2));
    assert_eq!(cofactor::<Fr>(&m, 1, 1), el(1));
}

#[test]
fn cofactor_of_a_single_entry_is_one() {
    assert_eq!(cofactor::<Fr>(&mat(&[&[5]]), 0, 0), el(1));
}

#[test]
fn cofactor_matrix_holds_every_cofactor() {
    let m = mat(&[&[1, 2], &[3, 8]]);
    let c = cofactor_matrix::<Fr>(&m);
    assert_eq!(c, vec![vec![el(8), neg(3)], vec![neg(2), el(1)]]);
    assert_eq!(cofactor_matrix::<Fr>(&Vec::new()), Vec::<Vec<Fr>>::new());
}

#[test]
fn determinant_with_cofactor_matrix_agrees_with_determinant() {
    let m = mat(&[&[1, 2, 3], &[4, 5, 6], &[7, 8, 8]]);
    let c = cofactor_matrix::<Fr>(&m);
    assert_eq!(determinant_with_cofactor_matrix::<Fr>(&m, &c), el(3));
    assert_eq!(
        determinant_with_cofactor_matrix::<Fr>(&m, &c),
        determinant::<Fr>(&m)
    );
}

#[test]
fn any_row_times_its_cofactors_is_the_determinant() {
    let m = mat(&[&[1, 2, 3], &[4, 5, 6], &[7, 8, 8]]);
    let c = cofactor_matrix::<Fr>(&m);
    for i in 0..3 {
        assert_eq!(vec_mul::<Fr>(&m[i], &c[i]), el(3));
    }
    assert_eq!(vec_mul::<Fr>(&m[0], &c[1]), el(0));
    assert_eq!(vec_mul::<Fr>(&m[2], &c[0]), el(0));
}

#[test]
fn eliminate_clears_the_column_below_the_pivot() {
    let m = mat(&[&[2, 3, 4], &[0, 5, 6], &[6, 8, 8]]);
    let mut shadow = make_identity::<Fr>(3);
    let res = eliminate::<Fr>(&m, 0, 0, &mut shadow);
    assert_eq!(res[0], m[0]);
    assert_eq!(res[1], m[1]);
    // 6 / 2 = 3: the third row loses three times the first.
    assert_eq!(res[2], vec![el(0), neg(1), neg(4)]);
    assert_eq!(shadow[0], vec![el(1), el(0), el(0)]);
    assert_eq!(shadow[1], vec![el(0), el(1), el(0)]);
    assert_eq!(shadow[2], vec![neg(3), el(0), el(1)]);
    // The shadow times the matrix is what elimination left.
    assert_eq!(mat_mul::<Fr>(&shadow, &m).unwrap(), res);
}

#[test]
fn eliminate_puts_the_pivot_row_first() {
    let m = mat(&[&[4, 5, 6], &[2, 3, 4], &[6, 8, 8]]);
    let mut shadow = make_identity::<Fr>(3);
    let res = eliminate::<Fr>(&m, 0, 1, &mut shadow);
    assert_eq!(res[0], m[1]);
    assert_eq!(res[1], vec![el(0), neg(1), neg(2)]);
    assert_eq!(res[2], vec![el(0), neg(1), neg(4)]);
    assert_eq!(shadow[0], vec![el(1), neg(2), el(0)]);
    assert_eq!(shadow[1], vec![el(0), el(1), el(0)]);
    assert_eq!(shadow[2], vec![el(0), neg(3), el(1)]);
}

#[test]
fn upper_triangular_leaves_zeros_below_the_diagonal() {
    let m = mat(&[&[2, 3, 4], &[4, 5, 6], &[6, 8, 8]]);
    let mut shadow = make_identity::<Fr>(3);
    let ut = upper_triangular::<Fr>(&m, &mut shadow);
    assert_eq!(ut[0], m[0]);
    assert_eq!(ut[1], vec![el(0), neg(1), neg(2)]);
    assert_eq!(ut[2], vec![el(0), el(0), neg(2)]);
    assert_eq!(mat_mul::<Fr>(&shadow, &m).unwrap(), ut);
}

#[test]
fn upper_triangular_of_a_single_row_is_that_row() {
    let m = mat(&[&[7]]);
    let mut shadow = make_identity::<Fr>(1);
    assert_eq!(upper_triangular::<Fr>(&m, &mut shadow), m);
    assert_eq!(shadow, mat(&[&[1]]));
}

#[test]
fn solve_reduces_a_triangular_matrix_to_the_identity() {
    let u = mat(&[&[2, 4], &[0, 1]]);
    let mut shadow = make_identity::<Fr>(2);
    let res = solve::<Fr>(&u, &mut shadow);
    assert!(is_identity::<Fr>(&res));
    assert!(is_identity::<Fr>(&mat_mul::<Fr>(&shadow, &u).unwrap()));
    let half = Field::inverse(&el(2)).unwrap();
    assert_eq!(shadow[0][0], half);
    assert_eq!(shadow[0][1], neg(2));
    assert_eq!(shadow[1], vec![el(0), el(1)]);
}
