use ff::{Field, PrimeField};
use field_matrix::{
    apply_matrix, determinant, invert, invert_with_cofactors, is_identity, is_invertible,
    make_identity, mat_mul, transpose, vec_add, Matrix,
};
use paired::bls12_381::{Fr, FrRepr};

fn el(i: u64) -> Fr {
    Fr::from_repr(FrRepr::from(i)).unwrap()
}

fn mat(entries: &[&[u64]]) -> Matrix<Fr> {
    entries
        .iter()
        .map(|row| row.iter().map(|x| el(*x)).collect())
        .collect()
}

fn invertible_samples() -> Vec<Matrix<Fr>> {
    vec![
        mat(&[&[3]]),
        mat(&[&[1, 2], &[3, 8]]),
        mat(&[&[1, 2, 3], &[4, 3, 6], &[5, 8, 7]]),
        mat(&[&[2, 3, 4], &[4, 5, 6], &[7, 8, 8]]),
        mat(&[&[2, 1, 1, 1], &[1, 3, 1, 1], &[1, 1, 4, 1], &[1, 1, 1, 5]]),
    ]
}

#[test]
fn matrix_times_its_inverse_by_elimination_is_the_identity() {
    for m in invertible_samples() {
        let inv = invert::<Fr>(&m).unwrap();
        assert!(is_identity::<Fr>(&mat_mul::<Fr>(&m, &inv).unwrap()));
        assert!(is_identity::<Fr>(&mat_mul::<Fr>(&inv, &m).unwrap()));
    }
}

#[test]
fn matrix_times_its_inverse_by_cofactors_is_the_identity() {
    for m in invertible_samples() {
        let inv = invert_with_cofactors::<Fr>(&m).unwrap();
        assert!(is_identity::<Fr>(&mat_mul::<Fr>(&m, &inv).unwrap()));
        assert!(is_identity::<Fr>(&mat_mul::<Fr>(&inv, &m).unwrap()));
    }
}

#[test]
fn both_inversions_agree() {
    for m in invertible_samples() {
        assert_eq!(
            invert::<Fr>(&m).unwrap(),
            invert_with_cofactors::<Fr>(&m).unwrap()
        );
    }
}

#[test]
fn inverse_of_a_two_by_two_matrix() {
    // The determinant of [[1, 2], [3, 8]] is 2, its adjugate [[8, -2], [-3, 1]].
    let m = mat(&[&[1, 2], &[3, 8]]);
    let half = Field::inverse(&el(2)).unwrap();
    let mut minus_one = el(1);
    minus_one.negate();
    let mut minus_three_halves = el(3);
    minus_three_halves.mul_assign(&half);
    minus_three_halves.negate();
    let expected = vec![vec![el(4), minus_one], vec![minus_three_halves, half]];
    assert_eq!(invert_with_cofactors::<Fr>(&m).unwrap(), expected);
    assert_eq!(invert::<Fr>(&m).unwrap(), expected);
}

#[test]
fn inverse_of_the_identity_is_the_identity() {
    let id = make_identity::<Fr>(3);
    assert_eq!(invert::<Fr>(&id).unwrap(), id);
    assert_eq!(invert_with_cofactors::<Fr>(&id).unwrap(), id);
}

#[test]
fn singular_matrix_is_not_invertible_and_has_no_inverse_by_cofactors() {
    let samples = vec![
        mat(&[&[0]]),
        mat(&[&[1, 2], &[2, 4]]),
        mat(&[&[1, 2, 3], &[4, 5, 6], &[7, 8, 9]]),
        mat(&[&[0, 0], &[0, 0]]),
    ];
    for m in samples {
        assert!(!is_invertible::<Fr>(&m));
        assert!(invert_with_cofactors::<Fr>(&m).is_none());
    }
}

#[test]
fn invertible_matrix_is_reported_invertible() {
    for m in invertible_samples() {
        assert!(is_invertible::<Fr>(&m));
    }
}

#[test]
fn matrix_that_is_not_square_is_not_invertible() {
    assert!(!is_invertible::<Fr>(&mat(&[&[1, 2, 3], &[4, 5, 6]])));
}

#[test]
fn cofactors_invert_a_matrix_with_a_zero_in_the_corner() {
    let m = mat(&[&[0, 1], &[1, 0]]);
    assert!(is_invertible::<Fr>(&m));
    assert_eq!(invert_with_cofactors::<Fr>(&m).unwrap(), m);
}

#[test]
fn transpose_twice_is_the_matrix() {
    let samples = vec![
        Vec::new(),
        mat(&[&[3]]),
        mat(&[&[1, 2], &[3, 8]]),
        mat(&[&[1, 2, 3], &[4, 5, 6], &[7, 8, 9]]),
    ];
    for m in samples {
        assert_eq!(transpose::<Fr>(&transpose::<Fr>(&m)), m);
    }
}

#[test]
fn vector_comes_back_through_matrix_and_inverse() {
    let m = mat(&[&[1, 2, 3], &[4, 3, 6], &[5, 8, 7]]);
    let inv = invert::<Fr>(&m).unwrap();
    let v = vec![el(6), el(5), el(4)];
    assert_eq!(apply_matrix::<Fr>(&inv, &apply_matrix::<Fr>(&m, &v)), v);
    assert_eq!(apply_matrix::<Fr>(&m, &apply_matrix::<Fr>(&inv, &v)), v);
}

#[test]
fn adding_after_applying_is_applying_after_adding() {
    let m = mat(&[&[2, 3, 4], &[4, 5, 6], &[7, 8, 8]]);
    let inv = invert::<Fr>(&m).unwrap();
    let s = vec![el(6), el(5), el(4)];
    let b = vec![el(8), el(2), el(5)];
    let left = vec_add::<Fr>(&s, &apply_matrix::<Fr>(&m, &b));
    let right = apply_matrix::<Fr>(&m, &vec_add::<Fr>(&b, &apply_matrix::<Fr>(&inv, &s)));
    assert_eq!(left, right);
}

#[test]
fn make_identity_is_an_identity_for_every_size() {
    for n in 0..6 {
        assert!(is_identity::<Fr>(&make_identity::<Fr>(n)));
    }
}

#[test]
fn transpose_keeps_the_determinant() {
    for m in invertible_samples() {
        assert_eq!(determinant::<Fr>(&transpose::<Fr>(&m)), determinant::<Fr>(&m));
    }
    let singular = mat(&[&[1, 2, 3], &[4, 5, 6], &[7, 8, 9]]);
    assert_eq!(determinant::<Fr>(&transpose::<Fr>(&singular)), el(0));
}

#[test]
fn inverse_of_the_inverse_is_the_matrix() {
    for m in invertible_samples() {
        let inv = invert_with_cofactors::<Fr>(&m).unwrap();
        assert_eq!(invert_with_cofactors::<Fr>(&inv).unwrap(), m);
    }
}
