use ff::PrimeField;
use field_matrix::{
    apply_matrix, columns, determinant, eliminate, invert, is_identity, is_invertible,
    make_identity, mat_mul, minor, scalar_mul, solve, transpose, upper_triangular, vec_add,
    vec_mul,
};
use paired::bls12_381::{Fr, FrRepr};

fn scalar_from_u64(i: u64) -> Fr {
    Fr::from_repr(FrRepr::from(i)).unwrap()
}

#[test]
fn test_minor() {
    let one = scalar_from_u64(1);
    let two = scalar_from_u64(2);
    let three = scalar_from_u64(3);
    let four = scalar_from_u64(4);
    let five = scalar_from_u64(5);
    let six = scalar_from_u64(6);
    let seven = scalar_from_u64(7);
    let eight = scalar_from_u64(8);
    let nine = scalar_from_u64(9);

    let m = vec![
        vec![one, two, three],
        vec![four, five, six],
        vec![seven, eight, nine],
    ];

    let cases = [
        (0, 0, vec![vec![five, six], vec![eight, nine]]),
        (0, 1, vec![vec![four, six], vec![seven, nine]]),
        (0, 2, vec![vec![four, five], vec![seven, eight]]),
        (1, 0, vec![vec![two, three], vec![eight, nine]]),
        (1, 1, vec![vec![one, three], vec![seven, nine]]),
        (1, 2, vec![vec![one, two], vec![seven, eight]]),
        (2, 0, vec![vec![two, three], vec![five, six]]),
        (2, 1, vec![vec![one, three], vec![four, six]]),
        (2, 2, vec![vec![one, two], vec![four, five]]),
    ];
    for (i, j, expected) in &cases {
        let result = minor::<Fr>(&m, *i, *j);

        assert_eq!(*expected, result);
    }
}

#[test]
fn test_determinant() {
    let one = scalar_from_u64(1);
    let two = scalar_from_u64(2);
    let three = scalar_from_u64(3);
    let four = scalar_from_u64(4);
    let five = scalar_from_u64(5);
    let six = scalar_from_u64(6);
    let seven = scalar_from_u64(7);
    let eight = scalar_from_u64(8);

    let m1 = vec![
        vec![one, two, three],
        vec![four, five, six],
        vec![seven, eight, eight],
    ];

    let res1 = determinant::<Fr>(&m1);
    // + 1 * (40 - 48)
    // - 2 * (32 - 42)
    // + 3 * (32 - 35)

    // + 1 * -8
    // - 2 * -10
    // + 3 * -3

    // = -8 + 20 - 9 = 3
    assert_eq!(three, res1);

    let m2 = vec![vec![one, two], vec![three, eight]];
    let res2 = determinant::<Fr>(&m2);
    // 1 * 8 - 2 * 3
    // = 8 - 6 = 2

    assert_eq!(two, res2);
}

#[test]
fn test_scalar_mul() {
    let zero = scalar_from_u64(0);
    let one = scalar_from_u64(1);
    let two = scalar_from_u64(2);
    let three = scalar_from_u64(3);
    let four = scalar_from_u64(4);
    let six = scalar_from_u64(6);

    let m = vec![vec![zero, one], vec![two, three]];
    let res = scalar_mul::<Fr>(two, &m);

    let expected = vec![vec![zero, two], vec![four, six]];

    assert_eq!(expected, res);
}

#[test]
fn test_vec_mul() {
    let one = scalar_from_u64(1);
    let two = scalar_from_u64(2);
    let three = scalar_from_u64(3);
    let four = scalar_from_u64(4);
    let five = scalar_from_u64(5);
    let six = scalar_from_u64(6);

    let a = vec![one, two, three];
    let b = vec![four, five, six];
    let res = vec_mul::<Fr>(&a, &b);

    let expected = scalar_from_u64(32);

    assert_eq!(expected, res);
}

#[test]
fn test_transpose() {
    let one = scalar_from_u64(1);
    let two = scalar_from_u64(2);
    let three = scalar_from_u64(3);
    let four = scalar_from_u64(4);
    let five = scalar_from_u64(5);
    let six = scalar_from_u64(6);
    let seven = scalar_from_u64(7);
    let eight = scalar_from_u64(8);
    let nine = scalar_from_u64(9);

    let m = vec![
        vec![one, two, three],
        vec![four, five, six],
        vec![seven, eight, nine],
    ];

    let expected = vec![
        vec![one, four, seven],
        vec![two, five, eight],
        vec![three, six, nine],
    ];

    let res = transpose::<Fr>(&m);
    assert_eq!(expected, res);
}

#[test]
fn test_inverse() {
    let one = scalar_from_u64(1);
    let two = scalar_from_u64(2);
    let three = scalar_from_u64(3);
    let four = scalar_from_u64(4);
    let five = scalar_from_u64(5);
    let six = scalar_from_u64(6);
    let seven = scalar_from_u64(7);
    let eight = scalar_from_u64(8);
    let nine = scalar_from_u64(9);

    let m = vec![
        vec![one, two, three],
        vec![four, three, six],
        vec![five, eight, seven],
    ];

    let m1 = vec![
        vec![one, two, three],
        vec![four, five, six],
        vec![seven, eight, nine],
    ];

    assert!(!is_invertible::<Fr>(&m1));
    assert!(is_invertible::<Fr>(&m));

    let m_inv = invert::<Fr>(&m).unwrap();

    let computed_identity = mat_mul::<Fr>(&m, &m_inv).unwrap();

    assert!(is_identity::<Fr>(&computed_identity));

    // S
    let some_vec = vec![six, five, four];

    // M^-1(S)
    let inverse_applied = apply_matrix::<Fr>(&m_inv, &some_vec);

    // M(M^-1(S))
    let m_applied_after_inverse = apply_matrix::<Fr>(&m, &inverse_applied);

    // S = M(M^-1(S))
    assert_eq!(
        some_vec, m_applied_after_inverse,
        "M(M^-1(V))) = V did not hold"
    );

    // B
    let base_vec = vec![eight, two, five];

    // S + M(B)
    let add_after_apply = vec_add::<Fr>(&some_vec, &apply_matrix::<Fr>(&m, &base_vec));

    // M(B + M^-1(S))
    let apply_after_add = apply_matrix::<Fr>(&m, &vec_add::<Fr>(&base_vec, &inverse_applied));

    // S + M(B) = M(B + M^-1(S))
    assert_eq!(add_after_apply, apply_after_add, "breakin' the law");
}

#[test]
fn test_eliminate() {
    let two = scalar_from_u64(2);
    let three = scalar_from_u64(3);
    let four = scalar_from_u64(4);
    let five = scalar_from_u64(5);
    let six = scalar_from_u64(6);
    let seven = scalar_from_u64(7);
    let eight = scalar_from_u64(8);

    let m = vec![
        vec![two, three, four],
        vec![four, five, six],
        vec![seven, eight, eight],
    ];

    let mut shadow = make_identity::<Fr>(columns(&m));
    let res = eliminate::<Fr>(&m, 0, 0, &mut shadow);

    let prod = mat_mul::<Fr>(&res, &shadow).unwrap();

    println!("{:?} {:?} {:?} {:?}", &m, &res, &shadow, &prod);
}

#[test]
fn test_upper_triangular() {
    let two = scalar_from_u64(2);
    let three = scalar_from_u64(3);
    let four = scalar_from_u64(4);
    let five = scalar_from_u64(5);
    let six = scalar_from_u64(6);
    let seven = scalar_from_u64(7);
    let eight = scalar_from_u64(8);

    let m = vec![
        vec![two, three, four],
        vec![four, five, six],
        vec![seven, eight, eight],
    ];

    let mut shadow = make_identity::<Fr>(columns(&m));
    let _res = upper_triangular::<Fr>(&m, &mut shadow);
}

#[test]
fn test_solve() {
    let two = scalar_from_u64(2);
    let three = scalar_from_u64(3);
    let four = scalar_from_u64(4);
    let five = scalar_from_u64(5);
    let six = scalar_from_u64(6);
    let seven = scalar_from_u64(7);
    let eight = scalar_from_u64(8);

    let m = vec![
        vec![two, three, four],
        vec![four, five, six],
        vec![seven, eight, eight],
    ];

    let mut shadow = make_identity::<Fr>(columns(&m));
    let ut = upper_triangular::<Fr>(&m, &mut shadow);

    let res = solve::<Fr>(&ut, &mut shadow);

    assert!(is_identity::<Fr>(&res));
    let prod = mat_mul::<Fr>(&m, &shadow).unwrap();

    assert!(is_identity::<Fr>(&prod));
}
