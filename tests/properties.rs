use matrix_mc::{dup, identity, matrix_from_rows, normalize, reduced_copy, rref};

fn reduce(a: &mut Vec<Vec<f64>>) {
    rref(a, |x: f64| x == 0.0, |x: f64, y: f64| x - y, |x: f64, y: f64| x * y, |x: f64, y: f64| x / y)
}

fn normalize_columns(a: &mut Vec<Vec<f64>>) {
    normalize(a, 0.0, |x: f64, y: f64| x + y, |x: f64, y: f64| x * y, |x: f64, y: f64| x / y, |x: f64| x.sqrt())
}

#[test]
fn identity_of_each_size() {
    for n in 0..6usize {
        let m = identity(n, 0.0, 1.0);
        assert_eq!(m.len(), n);
        for (i, row) in m.iter().enumerate() {
            assert_eq!(row.len(), n);
            for (j, x) in row.iter().enumerate() {
                assert_eq!(*x, if i == j { 1.0 } else { 0.0 });
            }
        }
    }
}

#[test]
fn identity_zero_is_empty() {
    let m: Vec<Vec<f64>> = identity(0, 0.0, 1.0);
    assert!(m.is_empty());
}

#[test]
fn builder_pads_short_rows() {
    let rows = vec![vec![0.0, 1.0, 2.0], vec![1.0, 1.0], vec![2.0, 3.0, 4.0]];
    let m = matrix_from_rows(&rows, 0.0);
    assert_eq!(m, vec![vec![0.0, 1.0, 2.0], vec![1.0, 1.0, 0.0], vec![2.0, 3.0, 4.0]]);
}

#[test]
fn builder_pads_to_longest_row_anywhere() {
    let rows = vec![vec![7], vec![1, 2, 3], vec![], vec![4, 5]];
    let m = matrix_from_rows(&rows, 9);
    assert_eq!(m, vec![vec![7, 9, 9], vec![1, 2, 3], vec![9, 9, 9], vec![4, 5, 9]]);
}

#[test]
fn builder_on_no_rows() {
    let rows: Vec<Vec<f64>> = Vec::new();
    assert!(matrix_from_rows(&rows, 0.0).is_empty());
}

#[test]
fn rref_of_full_rank_twice_is_identity() {
    let mut a = vec![vec![2.0, 3.0, 4.0], vec![3.0, 1.0, 5.0], vec![7.0, 11.0, 22.0]];
    reduce(&mut a);
    let once = a.clone();
    reduce(&mut a);
    assert_eq!(once, a);
    assert_eq!(a, identity(3, 0.0, 1.0));
}

#[test]
fn rref_dependent_twice_is_unchanged() {
    let mut a = vec![vec![1.0, 1.0, 1.0], vec![0.0, 1.0, 1.0], vec![1.0, 1.0, 1.0]];
    reduce(&mut a);
    let once = a.clone();
    reduce(&mut a);
    assert_eq!(once, a);
}

#[test]
fn rref_skips_zero_pivots_without_swapping() {
    let mut a = vec![vec![0.0, 1.0], vec![1.0, 0.0]];
    reduce(&mut a);
    assert_eq!(a, vec![vec![0.0, 1.0], vec![1.0, 0.0]]);
}

#[test]
fn rref_late_pivot_is_not_a_fixed_point() {
    let mut a = vec![vec![0.0, 1.0], vec![1.0, 1.0]];
    reduce(&mut a);
    assert_eq!(a, vec![vec![1.0, 0.0], vec![1.0, 1.0]]);
    reduce(&mut a);
    assert_eq!(a, vec![vec![1.0, 0.0], vec![0.0, 1.0]]);
}

#[test]
fn rref_wide_matrix() {
    let mut a = vec![vec![1.0, 2.0, 3.0], vec![4.0, 5.0, 6.0]];
    reduce(&mut a);
    assert_eq!(a, vec![vec![1.0, 0.0, -1.0], vec![0.0, 1.0, 2.0]]);
}

#[test]
fn rref_on_empty_matrix() {
    let mut a: Vec<Vec<f64>> = Vec::new();
    reduce(&mut a);
    assert!(a.is_empty());
}

#[test]
fn rref_exact_pivot_test_keeps_tiny_pivot() {
    let mut a = vec![vec![1e-300, 1.0], vec![1.0, 1.0]];
    reduce(&mut a);
    assert_eq!(a[0][0], 1.0);
    assert_eq!(a[1][1], 1.0);
    assert!(a[1][0] != 1.0 && a[1][0].abs() < 1e-300);
}

#[test]
fn dup_leaves_input_and_matches_in_place() {
    let input = vec![vec![1.0, 1.0, 1.0], vec![0.0, 1.0, 1.0], vec![1.0, 1.0, 1.0]];
    let kept = input.clone();
    let copied = dup(|m: &mut Vec<Vec<f64>>| reduce(m), &input);
    assert_eq!(input, kept);
    let mut in_place = input.clone();
    reduce(&mut in_place);
    assert_eq!(copied, in_place);
    assert_ne!(copied, input);
}

#[test]
fn reduced_copy_matches_in_place() {
    let input = vec![vec![5.0, 4.0], vec![0.0, 3.0], vec![10.0, 8.0]];
    let r = reduced_copy(&input, |x: f64| x == 0.0, |x: f64, y: f64| x - y, |x: f64, y: f64| x * y, |x: f64, y: f64| x / y);
    assert_eq!(r, vec![vec![1.0, 0.0], vec![0.0, 1.0], vec![0.0, 0.0]]);
    assert_eq!(input, vec![vec![5.0, 4.0], vec![0.0, 3.0], vec![10.0, 8.0]]);
}

#[test]
fn normalize_columns_have_unit_length() {
    let mut a = vec![vec![3.0, 1.0, -2.0], vec![4.0, 2.0, 0.5], vec![0.0, 2.0, 7.0]];
    normalize_columns(&mut a);
    for c in 0..3 {
        let s: f64 = a.iter().map(|row| row[c] * row[c]).sum();
        assert!((s - 1.0).abs() < 1e-12);
    }
}

#[test]
fn normalize_non_square_uses_first_row_length() {
    let mut a = vec![vec![3.0, 0.0], vec![4.0, 1.0], vec![0.0, 0.0]];
    normalize_columns(&mut a);
    assert_eq!(a, vec![vec![0.6, 0.0], vec![0.8, 1.0], vec![0.0, 0.0]]);
}

#[test]
fn normalize_zero_column_becomes_nan() {
    let mut a = vec![vec![0.0, 1.0], vec![0.0, 1.0]];
    normalize_columns(&mut a);
    assert!(a[0][0].is_nan() && a[1][0].is_nan());
    assert_eq!(a[0][1], 1.0 / 2f64.sqrt());
}
