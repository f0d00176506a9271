use graphs::sparse_matrix::{DimensionError, SparseMatrix};

#[test]
fn new_matrix_is_empty() {
    let matrix = SparseMatrix::new();
    assert_eq!(matrix.get_number_of_points(), 0);
    assert_eq!(matrix.get_number_of_rows(), 0);
    assert_eq!(matrix.get_number_of_cols(), 0);
}

#[test]
fn with_capcaity_matrix_is_empty() {
    let matrix = SparseMatrix::with_capcaity(64);
    assert_eq!(matrix.get_number_of_points(), 0);
    assert_eq!(matrix.get_number_of_rows(), 0);
    assert_eq!(matrix.get_number_of_cols(), 0);
}

#[test]
fn set_then_get_round_trip() {
    let mut matrix = SparseMatrix::new();
    matrix.set_value_at_coordinate(3, 7, 42);
    matrix.set_value_at_coordinate(1, 1, -5);
    matrix.set_value_at_coordinate(100, 2, 9);
    assert_eq!(matrix.get_value_at_coordinate(3, 7), 42);
    assert_eq!(matrix.get_value_at_coordinate(1, 1), -5);
    assert_eq!(matrix.get_value_at_coordinate(100, 2), 9);
}

#[test]
fn overwrite_keeps_a_single_point() {
    let mut matrix = SparseMatrix::new();
    matrix.set_value_at_coordinate(3, 4, 5);
    matrix.set_value_at_coordinate(3, 4, 7);
    assert_eq!(matrix.get_value_at_coordinate(3, 4), 7);
    assert_eq!(matrix.get_number_of_points(), 1);
}

#[test]
fn absent_coordinate_reads_zero() {
    let mut empty = SparseMatrix::new();
    assert_eq!(empty.get_value_at_coordinate(5, 9), 0);
    let mut matrix = SparseMatrix::new();
    matrix.set_value_at_coordinate(2, 2, 11);
    assert_eq!(matrix.get_value_at_coordinate(2, 3), 0);
    assert_eq!(matrix.get_value_at_coordinate(3, 2), 0);
}

#[test]
fn point_count_counts_distinct_coordinates() {
    let mut matrix = SparseMatrix::new();
    matrix.set_value_at_coordinate(1, 2, 10);
    matrix.set_value_at_coordinate(2, 1, 20);
    matrix.set_value_at_coordinate(1, 2, 30);
    matrix.set_value_at_coordinate(2, 1, 40);
    matrix.set_value_at_coordinate(5, 5, 50);
    assert_eq!(matrix.get_number_of_points(), 3);
}

#[test]
fn high_water_marks_only_grow() {
    let mut matrix = SparseMatrix::new();
    matrix.set_value_at_coordinate(4, 9, 1);
    matrix.set_value_at_coordinate(2, 3, 1);
    assert_eq!(matrix.get_number_of_rows(), 4);
    assert_eq!(matrix.get_number_of_cols(), 9);
}

#[test]
fn cleanup_preserves_corner_scenario() {
    let mut matrix = SparseMatrix::new();
    matrix.set_value_at_coordinate(1, 1, 0);
    matrix.set_value_at_coordinate(2, 2, 25);
    matrix.set_value_at_coordinate(1, 1, 0);
    assert_eq!(matrix.get_number_of_points(), 2);
    matrix.clean_zeros();
    assert_eq!(matrix.get_value_at_coordinate(2, 2), 25);
    assert_eq!(matrix.get_number_of_points(), 1);
}

#[test]
fn cleanup_keeps_a_zero_dimension_corner() {
    let mut matrix = SparseMatrix::new();
    matrix.set_value_at_coordinate(1, 1, 5);
    matrix.set_value_at_coordinate(2, 2, 0);
    matrix.clean_zeros();
    // The zero point sits at (rows, cols) and witnesses the extent: kept.
    assert_eq!(matrix.get_number_of_points(), 2);
    assert_eq!(matrix.get_value_at_coordinate(2, 2), 0);
    assert_eq!(matrix.get_value_at_coordinate(1, 1), 5);
}

#[test]
fn ensure_clean_removes_an_ordered_zero() {
    let mut matrix = SparseMatrix::new();
    matrix.set_value_at_coordinate(1, 1, 1);
    matrix.set_value_at_coordinate(1, 2, 0);
    matrix.set_value_at_coordinate(1, 3, 2);
    assert_eq!(matrix.get_number_of_points(), 3);
    matrix.ensure_clean();
    assert_eq!(matrix.get_number_of_points(), 2);
    assert_eq!(matrix.get_value_at_coordinate(1, 2), 0);
    assert_eq!(matrix.get_value_at_coordinate(1, 3), 2);
}

#[test]
fn ensure_clean_trusts_the_flag_for_an_unordered_zero() {
    let mut matrix = SparseMatrix::new();
    matrix.set_value_at_coordinate(3, 3, 1);
    matrix.set_value_at_coordinate(1, 1, 0);
    // The out-of-order insert dropped the sorted flag and skipped the clean
    // check, so the clean flag stays raised and the zero survives.
    matrix.ensure_clean();
    assert_eq!(matrix.get_number_of_points(), 2);
    assert_eq!(matrix.get_value_at_coordinate(1, 1), 0);
}

#[test]
fn insertion_order_does_not_change_readings() {
    let coords = [(5, 1, 50), (1, 5, 15), (3, 3, 33), (1, 1, 11), (2, 4, 24)];
    let mut scrambled = SparseMatrix::new();
    for &(r, c, v) in coords.iter() {
        scrambled.set_value_at_coordinate(r, c, v);
    }
    let sorted = [(1, 1, 11), (1, 5, 15), (2, 4, 24), (3, 3, 33), (5, 1, 50)];
    let mut in_order = SparseMatrix::new();
    for &(r, c, v) in sorted.iter() {
        in_order.set_value_at_coordinate(r, c, v);
    }
    for r in 1..6 {
        for c in 1..6 {
            assert_eq!(
                scrambled.get_value_at_coordinate(r, c),
                in_order.get_value_at_coordinate(r, c)
            );
        }
    }
    assert_eq!(scrambled.get_number_of_points(), in_order.get_number_of_points());
}

#[test]
fn iterate_entries_reports_every_point() {
    let mut matrix = SparseMatrix::new();
    matrix.set_value_at_coordinate(2, 1, 21);
    matrix.set_value_at_coordinate(1, 2, 12);
    let points = matrix.iterate_entries();
    assert_eq!(points.len(), 2);
    let mut saw_21 = false;
    let mut saw_12 = false;
    for e in points.iter() {
        if e.row == 2 && e.col == 1 && e.value == 21 {
            saw_21 = true;
        }
        if e.row == 1 && e.col == 2 && e.value == 12 {
            saw_12 = true;
        }
    }
    assert!(saw_21 && saw_12);
}

#[test]
fn identity_multiplication() {
    let mut matrix_a = SparseMatrix::new();
    let mut matrix_b = SparseMatrix::new();
    for i in 1..1000 {
        matrix_a.set_value_at_coordinate(i, i, 1);
        matrix_b.set_value_at_coordinate(i, i, 1);
    }
    let mut result = matrix_a
        .matrix_multiplication(&mut matrix_b)
        .expect("compatible dimensions must multiply");
    assert_eq!(result.get_number_of_points(), 999);
    for i in 1..1000 {
        assert_eq!(result.get_value_at_coordinate(i, i), 1);
    }
    assert_eq!(result.get_value_at_coordinate(1, 2), 0);
    assert_eq!(result.get_value_at_coordinate(999, 1), 0);
}

#[test]
fn dimension_mismatch_is_an_error() {
    let mut left = SparseMatrix::new();
    left.set_value_at_coordinate(2, 1, 3);
    let mut right = SparseMatrix::new();
    right.set_value_at_coordinate(1, 3, 4);
    // left.rows == 2, right.cols == 3: the declared check fails.
    let outcome = left.matrix_multiplication(&mut right);
    assert!(matches!(outcome, Err(DimensionError)));
    // Nothing was touched: the operands still read as before.
    assert_eq!(left.get_value_at_coordinate(2, 1), 3);
    assert_eq!(right.get_value_at_coordinate(1, 3), 4);
    assert_eq!(left.get_number_of_points(), 1);
    assert_eq!(right.get_number_of_points(), 1);
}

#[test]
fn dense_two_by_two_product() {
    let mut left = SparseMatrix::new();
    left.set_value_at_coordinate(1, 1, 1);
    left.set_value_at_coordinate(1, 2, 2);
    left.set_value_at_coordinate(2, 1, 3);
    left.set_value_at_coordinate(2, 2, 4);
    let mut right = SparseMatrix::new();
    right.set_value_at_coordinate(1, 1, 5);
    right.set_value_at_coordinate(1, 2, 6);
    right.set_value_at_coordinate(2, 1, 7);
    right.set_value_at_coordinate(2, 2, 8);
    let mut result = left
        .matrix_multiplication(&mut right)
        .expect("compatible dimensions must multiply");
    assert_eq!(result.get_value_at_coordinate(1, 1), 19);
    assert_eq!(result.get_value_at_coordinate(1, 2), 22);
    assert_eq!(result.get_value_at_coordinate(2, 1), 43);
    assert_eq!(result.get_value_at_coordinate(2, 2), 50);
    assert_eq!(result.get_number_of_points(), 4);
    assert_eq!(result.get_number_of_rows(), 2);
    assert_eq!(result.get_number_of_cols(), 2);
}

#[test]
fn zero_dot_products_are_never_inserted() {
    let mut left = SparseMatrix::new();
    left.set_value_at_coordinate(1, 1, 1);
    left.set_value_at_coordinate(1, 2, 1);
    let mut right = SparseMatrix::new();
    right.set_value_at_coordinate(1, 1, 1);
    right.set_value_at_coordinate(2, 1, -1);
    let mut result = left
        .matrix_multiplication(&mut right)
        .expect("compatible dimensions must multiply");
    assert_eq!(result.get_number_of_points(), 0);
    assert_eq!(result.get_value_at_coordinate(1, 1), 0);
}

#[test]
fn products_wrap_like_the_machine() {
    let mut left = SparseMatrix::new();
    left.set_value_at_coordinate(1, 1, i64::MAX);
    let mut right = SparseMatrix::new();
    right.set_value_at_coordinate(1, 1, 2);
    let mut result = left
        .matrix_multiplication(&mut right)
        .expect("compatible dimensions must multiply");
    assert_eq!(result.get_value_at_coordinate(1, 1), i64::MAX.wrapping_mul(2));

    let mut big_a = SparseMatrix::new();
    big_a.set_value_at_coordinate(1, 1, 1i64 << 32);
    let mut big_b = SparseMatrix::new();
    big_b.set_value_at_coordinate(1, 1, 1i64 << 32);
    let product = big_a
        .matrix_multiplication(&mut big_b)
        .expect("compatible dimensions must multiply");
    // (1 << 32) squared wraps to exactly zero, so no point is inserted.
    assert_eq!(product.get_number_of_points(), 0);
}

#[test]
fn multiplication_cleans_its_operands() {
    let mut left = SparseMatrix::new();
    left.set_value_at_coordinate(1, 1, 1);
    left.set_value_at_coordinate(1, 2, 0);
    left.set_value_at_coordinate(1, 3, 2);
    let mut right = SparseMatrix::new();
    right.set_value_at_coordinate(1, 1, 1);
    right.set_value_at_coordinate(3, 1, 1);
    // left.rows == 1 == right.cols, so the product is computed and both
    // operands are forced clean: the non-corner zero of `left` goes away.
    let mut result = left
        .matrix_multiplication(&mut right)
        .expect("compatible dimensions must multiply");
    assert_eq!(left.get_number_of_points(), 2);
    assert_eq!(left.get_value_at_coordinate(1, 2), 0);
    assert_eq!(result.get_value_at_coordinate(1, 1), 3);
    assert_eq!(result.get_number_of_points(), 1);
}
