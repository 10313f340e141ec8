use tiny_renderer::matrix::Matrix;
use tiny_renderer::rat::Rat;
use tiny_renderer::vector::Vector;

fn rv(vals: &[i64]) -> Vector {
    let mut data: Vec<Rat> = Vec::new();
    for v in vals {
        data.push(Rat::from_int(*v));
    }
    Vector::new(data)
}

#[test]
fn vec3_add_int() {
    let expected_vec = rv(&[5, 7, 9]);

    let vec_one = rv(&[1, 2, 3]);
    let vec_two = rv(&[4, 5, 6]);

    let res = vec_one.add(&vec_two).unwrap();

    assert_eq!(expected_vec, res);
}

#[test]
fn vec3_add_float() {
    let expected_vec = rv(&[5, 7, 9]);

    let vec_one = rv(&[1, 2, 3]);
    let vec_two = rv(&[4, 5, 6]);

    let res = vec_one.add(&vec_two).unwrap();
    assert_eq!(expected_vec, res);
}

#[test]
fn vec3_sub_int() {
    let expected_vec = rv(&[-3, -3, -3]);

    let vec_one = rv(&[1, 2, 3]);
    let vec_two = rv(&[4, 5, 6]);

    let res = vec_one.sub(&vec_two).unwrap();
    assert_eq!(expected_vec, res);
}

#[test]
fn vec3_sub_float() {
    let expected_vec = rv(&[-3, -3, -3]);

    let vec_one = rv(&[1, 2, 3]);
    let vec_two = rv(&[4, 5, 6]);

    let res = vec_one.sub(&vec_two).unwrap();
    assert_eq!(expected_vec, res);
}

#[test]
fn vec3_dot_int() {
    let vec_one = rv(&[1, 2, 3]);
    let vec_two = rv(&[4, 5, 6]);

    let res = vec_one.dot(&vec_two).unwrap();
    assert_eq!(res, Rat::from_int(32));
}

#[test]
fn vec3_dot_float() {
    let vec_one = rv(&[1, 2, 3]);
    let vec_two = rv(&[4, 5, 6]);

    let res = vec_one.dot(&vec_two).unwrap();
    assert_eq!(res, Rat::from_int(32));
}

#[test]
fn matrix_cols_test() {
    let vec_expected_one = rv(&[1, 4]);
    let vec_expected_two = rv(&[2, 5]);
    let vec_expected_three = rv(&[3, 6]);
    let expected = vec![vec_expected_one, vec_expected_two, vec_expected_three];

    let vec_one = rv(&[1, 2, 3]);
    let vec_two = rv(&[4, 5, 6]);
    let matrix = Matrix::new(vec![vec_one, vec_two]);
    let result = matrix.columns();

    assert_eq!(expected, result);
}

#[test]
fn matrix_rows_test() {
    let expected = [[1i64, 2, 3], [4, 5, 6]];

    let vec_one = rv(&[1, 2, 3]);
    let vec_two = rv(&[4, 5, 6]);
    let matrix = Matrix::new(vec![vec_one, vec_two]);

    assert_eq!(matrix.num_rows(), 2);
    assert_eq!(matrix.num_cols(), 3);
    for (i, row) in expected.iter().enumerate() {
        for (j, v) in row.iter().enumerate() {
            assert_eq!(matrix.get(i, j), Rat::from_int(*v));
        }
    }
}

#[test]
fn matrix_mult_test() {
    let vec_expected_one = rv(&[21, 27]);
    let vec_expected_two = rv(&[48, 63]);
    let expected = Matrix::new(vec![vec_expected_one, vec_expected_two]);

    let vec_one = rv(&[1, 2, 3]);
    let vec_two = rv(&[4, 5, 6]);
    let matrix = Matrix::new(vec![vec_one, vec_two]);

    let vec_three = rv(&[1, 2]);
    let vec_four = rv(&[4, 5]);
    let vec_five = rv(&[4, 5]);
    let matrix_two = Matrix::new(vec![vec_three, vec_four, vec_five]);

    let result = matrix.mul(&matrix_two).unwrap();

    assert_eq!(expected, result);
}

#[test]
fn matrix_transpose_test() {
    let vec_expected_one = rv(&[1, 4]);
    let vec_expected_two = rv(&[2, 5]);
    let vec_expected_three = rv(&[3, 6]);
    let expected = Matrix::new(vec![vec_expected_one, vec_expected_two, vec_expected_three]);

    let vec_one = rv(&[1, 2, 3]);
    let vec_two = rv(&[4, 5, 6]);
    let matrix = Matrix::new(vec![vec_one, vec_two]);
    let result = matrix.transpose();

    assert_eq!(expected, result);
}

#[test]
fn matrix_inverse_test() {
    let vec_expected_one = rv(&[-2, 3]);
    let vec_expected_two = rv(&[3, -4]);
    let expected = Matrix::new(vec![vec_expected_one, vec_expected_two]);

    let vec_input_one = rv(&[4, 3]);
    let vec_input_two = rv(&[3, 2]);
    let input = Matrix::new(vec![vec_input_one, vec_input_two]);

    let identity_vector_one = rv(&[1, 0]);
    let identity_vector_two = rv(&[0, 1]);
    let expected_identity = Matrix::new(vec![identity_vector_one, identity_vector_two]);
    let identity = Matrix::identity(2);
    assert_eq!(expected_identity, identity);

    let result = input.invert().unwrap();

    assert_eq!(expected, result);
}

#[test]
fn matrix_inverse_3x3_test() {
    let vec_expected_one = rv(&[3, -1, 1]);
    let vec_expected_two = rv(&[-15, 6, -5]);
    let vec_expected_three = rv(&[5, -2, 2]);
    let expected = Matrix::new(vec![vec_expected_one, vec_expected_two, vec_expected_three]);

    let vec_input_one = rv(&[2, 0, -1]);
    let vec_input_two = rv(&[5, 1, 0]);
    let vec_input_three = rv(&[0, 1, 3]);
    let input = Matrix::new(vec![vec_input_one, vec_input_two, vec_input_three]);

    let result = input.invert().unwrap();

    assert_eq!(expected, result);
}

#[test]
fn int_matrix_inverse_3x3_test() {
    let vec_expected_one = rv(&[3, -1, 1]);
    let vec_expected_two = rv(&[-15, 6, -5]);
    let vec_expected_three = rv(&[5, -2, 2]);
    let expected = Matrix::new(vec![vec_expected_one, vec_expected_two, vec_expected_three]);

    let vec_input_one = rv(&[2, 0, -1]);
    let vec_input_two = rv(&[5, 1, 0]);
    let vec_input_three = rv(&[0, 1, 3]);
    let input = Matrix::new(vec![vec_input_one, vec_input_two, vec_input_three]);

    let result = input.invert().unwrap();

    assert_eq!(expected, result);
}

#[test]
fn matrix_inverse_pivot_swap_test() {
    let q = |n: i64, d: i64| Rat::new(n, d).unwrap();
    let vec_expected_one = Vector::new(vec![q(-15, 16), q(1, 4), q(3, 16)]);
    let vec_expected_two = Vector::new(vec![q(3, 8), q(-1, 2), q(1, 8)]);
    let vec_expected_three = Vector::new(vec![q(5, 16), q(1, 4), q(-1, 16)]);
    let expected = Matrix::new(vec![vec_expected_one, vec_expected_two, vec_expected_three]);

    let vec_input_one = rv(&[0, 1, 2]);
    let vec_input_two = rv(&[1, 0, 3]);
    let vec_input_three = rv(&[4, 5, 6]);
    let input = Matrix::new(vec![vec_input_one, vec_input_two, vec_input_three]);

    let result = input.invert().unwrap();

    assert_eq!(expected, result);
}

#[test]
fn rat_arithmetic_exact() {
    let half = Rat::new(1, 2).unwrap();
    let third = Rat::new(1, 3).unwrap();
    let sum = half.add(&third).unwrap();
    assert_eq!(sum, Rat::new(5, 6).unwrap());
    let prod = half.mul(&third).unwrap();
    assert_eq!(prod, Rat::new(1, 6).unwrap());
    let quot = half.div(&third).unwrap();
    assert_eq!(quot, Rat::new(3, 2).unwrap());
    assert_eq!(half.sub(&half).unwrap(), Rat::from_int(0));
    assert!(Rat::new(1, 0).is_none());
    assert!(third.div(&Rat::from_int(0)).is_none());
    assert!(third.lt(&half));
    assert!(!half.lt(&third));
}

#[test]
fn dot_of_canonical_values_is_defined() {
    let a = Vector::new(vec![Rat::new(1, 3).unwrap(), Rat::new(2, 7).unwrap()]);
    let b = Vector::new(vec![Rat::new(3, 5).unwrap(), Rat::new(7, 2).unwrap()]);
    let d = a.dot(&b).unwrap();
    assert_eq!(d, Rat::new(6, 5).unwrap());
}

#[test]
fn vector_add_commutes() {
    let a = rv(&[1, -2, 3]);
    let b = rv(&[7, 5, -4]);
    assert_eq!(a.add(&b).unwrap(), b.add(&a).unwrap());
}

#[test]
fn vector_dot_commutes() {
    let a = Vector::new(vec![Rat::new(1, 2).unwrap(), Rat::from_int(-2), Rat::from_int(3)]);
    let b = Vector::new(vec![Rat::from_int(7), Rat::new(5, 3).unwrap(), Rat::from_int(-4)]);
    assert_eq!(a.dot(&b).unwrap(), b.dot(&a).unwrap());
}

#[test]
fn vector_add_sub_cancels() {
    let a = Vector::new(vec![Rat::new(1, 2).unwrap(), Rat::from_int(-2), Rat::from_int(3)]);
    let b = Vector::new(vec![Rat::from_int(7), Rat::new(5, 3).unwrap(), Rat::from_int(-4)]);
    let back = a.add(&b).unwrap().sub(&b).unwrap();
    assert_eq!(back, a);
}

#[test]
fn vector_scalar_ops() {
    let a = rv(&[2, -4, 6]);
    let two = Rat::from_int(2);
    assert_eq!(a.mul(&two).unwrap(), rv(&[4, -8, 12]));
    assert_eq!(a.div(&two).unwrap(), rv(&[1, -2, 3]));
    assert!(a.div(&Rat::from_int(0)).is_none());
}

#[test]
fn matrix_identity_is_noop() {
    let vec_one = rv(&[1, 2, 3]);
    let vec_two = rv(&[4, 5, 6]);
    let matrix = Matrix::new(vec![vec_one, vec_two]);
    let right = matrix.mul(&Matrix::identity(3)).unwrap();
    let vec_onb = rv(&[1, 2, 3]);
    let vec_twb = rv(&[4, 5, 6]);
    let same = Matrix::new(vec![vec_onb, vec_twb]);
    assert_eq!(right, same);
    let left = Matrix::identity(2).mul(&same).unwrap();
    assert_eq!(left, right);
}

#[test]
fn matrix_double_inverse_returns() {
    let input = Matrix::new(vec![rv(&[4, 3]), rv(&[3, 2])]);
    let inv = input.invert().unwrap();
    let double = inv.invert().unwrap();
    let again = Matrix::new(vec![rv(&[4, 3]), rv(&[3, 2])]);
    assert_eq!(double, again);
    let prod = again.mul(&inv).unwrap();
    assert_eq!(prod, Matrix::identity(2));
    let prod2 = inv.mul(&again).unwrap();
    assert_eq!(prod2, Matrix::identity(2));
}

#[test]
fn singular_matrix_has_no_inverse() {
    let row = rv(&[1, 2, 3]);
    let same_row = rv(&[1, 2, 3]);
    let other = rv(&[4, 5, 6]);
    let singular = Matrix::new(vec![row, same_row, other]);
    assert!(singular.invert().is_none());
    let zero = Matrix::new(vec![rv(&[0, 0]), rv(&[0, 0])]);
    assert!(zero.invert().is_none());
}

#[test]
fn to_vector_reads_column() {
    let m = Matrix::new(vec![rv(&[7]), rv(&[8]), rv(&[9])]);
    let v = m.to_vector();
    assert_eq!(v, rv(&[7, 8, 9]));
}
