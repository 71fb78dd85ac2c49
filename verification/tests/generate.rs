use matmul_bench::matrix_multiplication::generate::{
    bounded, generate_square_matrix_of_size, MAX_ABS_VALUE_DEFAULT,
};

#[test]
fn test_generate_square_matrix_of_size() {
    let matrix = generate_square_matrix_of_size(10, false, None);
    assert_eq!(matrix.len(), 10);
    assert_eq!(matrix[0].len(), 10);
    for row in matrix {
        for value in row {
            assert_eq!(value, 0);
        }
    }
}

#[test]
fn test_generate_square_matrix_of_size_random_default_abs() {
    let matrix = generate_square_matrix_of_size(10, true, None);
    assert_eq!(matrix.len(), 10);
    assert_eq!(matrix[0].len(), 10);
    assert!(matrix[0][0] >= -MAX_ABS_VALUE_DEFAULT && matrix[0][0] <= MAX_ABS_VALUE_DEFAULT);
    assert!(matrix[9][9] >= -MAX_ABS_VALUE_DEFAULT && matrix[9][9] <= MAX_ABS_VALUE_DEFAULT);
}

#[test]
fn test_generate_square_matrix_of_size_random_custom_abs() {
    let max_abs_value = 5;
    let matrix = generate_square_matrix_of_size(10, true, Some(max_abs_value));
    assert_eq!(matrix.len(), 10);
    assert_eq!(matrix[0].len(), 10);
    assert!(matrix[0][0] >= -max_abs_value && matrix[0][0] <= max_abs_value);
    assert!(matrix[9][9] >= -max_abs_value && matrix[9][9] <= max_abs_value);
}

#[test]
fn every_random_value_stays_under_the_bound() {
    let matrix = generate_square_matrix_of_size(40, true, Some(3));
    assert_eq!(matrix.len(), 40);
    let mut seen = [false; 5];
    for row in &matrix {
        assert_eq!(row.len(), 40);
        for value in row {
            assert!(-3 < *value && *value < 3);
            seen[(*value + 2) as usize] = true;
        }
    }
    // 1600 draws from five values: each of them comes up.
    assert_eq!(seen, [true; 5]);
}

#[test]
fn a_bound_of_one_leaves_only_zero() {
    let matrix = generate_square_matrix_of_size(5, true, Some(1));
    assert_eq!(matrix, vec![vec![0; 5]; 5]);
}

#[test]
fn a_matrix_of_size_zero_is_empty() {
    assert_eq!(generate_square_matrix_of_size(0, true, None), Vec::<Vec<i32>>::new());
}

#[test]
fn the_remainder_keeps_the_sign_of_the_value() {
    assert_eq!(bounded(7, 5), 2);
    assert_eq!(bounded(-7, 5), -2);
    assert_eq!(bounded(10, 5), 0);
    assert_eq!(bounded(-10, 11), -10);
    assert_eq!(bounded(i32::MIN, 11), -2);
    assert_eq!(bounded(i32::MAX, 11), 1);
    assert_eq!(bounded(i32::MIN, 1), 0);
}
