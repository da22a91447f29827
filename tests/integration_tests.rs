use matrix_mc::{dup, identity, matrix_from_rows, normalize, rref};

fn matrix(rows: Vec<Vec<f64>>) -> Vec<Vec<f64>> {
    matrix_from_rows(&rows, 0.0)
}

fn reduce(a: &mut Vec<Vec<f64>>) {
    rref(a, |x: f64| x == 0.0, |x: f64, y: f64| x - y, |x: f64, y: f64| x * y, |x: f64, y: f64| x / y)
}

fn normalize_columns(a: &mut Vec<Vec<f64>>) {
    normalize(a, 0.0, |x: f64, y: f64| x + y, |x: f64, y: f64| x * y, |x: f64, y: f64| x / y, |x: f64| x.sqrt())
}

#[test]
fn init_identity_3x3() {
    let expected = matrix(vec![vec![1.0, 0.0, 0.0], vec![0.0, 1.0, 0.0], vec![0.0, 0.0, 1.0]]);
    let actual = identity(3usize, 0.0, 1.0);
    assert_eq!(expected, actual);
}

#[test]
fn rref_independent_3x3() {
    let expected = identity(3, 0.0, 1.0);
    let mut actual = matrix(vec![vec![2.0, 3.0, 4.0], vec![3.0, 1.0, 5.0], vec![7.0, 11.0, 22.0]]);
    reduce(&mut actual);
    assert_eq!(expected, actual);
}

#[test]
fn rref_dependent_3x3() {
    let expected = matrix(vec![vec![1.0, 0.0, 0.0], vec![0.0, 1.0, 1.0], vec![0.0, 0.0, 0.0]]);
    let mut actual = matrix(vec![vec![1.0, 1.0, 1.0], vec![0.0, 1.0, 1.0], vec![1.0, 1.0, 1.0]]);
    reduce(&mut actual);
    assert_eq!(expected, actual);
}

#[test]
fn rref_dependent_3x2() {
    let expected = matrix(vec![vec![1.0, 0.0], vec![0.0, 1.0], vec![0.0, 0.0]]);
    let mut actual = matrix(vec![vec![5.0, 4.0], vec![0.0, 3.0], vec![10.0, 8.0]]);
    reduce(&mut actual);
    assert_eq!(expected, actual);
}

#[test]
fn normalize_3x3() {
    let expected = matrix(vec![
        vec![1f64 / f64::sqrt(2f64), 1f64 / f64::sqrt(5f64), 1.0],
        vec![1f64 / f64::sqrt(2f64), 0.0, 0.0],
        vec![0.0, 2f64 / f64::sqrt(5f64), 0.0],
    ]);
    let mut actual = matrix(vec![vec![1.0, 1.0, 1.0], vec![1.0, 0.0, 0.0], vec![0.0, 2.0, 0.0]]);
    normalize_columns(&mut actual);
    assert_eq!(expected, actual);
}

#[test]
fn dup_rref_3x3() {
    let expected = matrix(vec![vec![1.0, 0.0, 0.0], vec![0.0, 1.0, 0.0], vec![0.0, 0.0, 1.0]]);
    let input = matrix(vec![vec![5.0, 4.0, 3.0], vec![2.0, 1.0, 9.0], vec![8.0, 7.0, 6.0]]);
    let actual = dup(|m: &mut Vec<Vec<f64>>| reduce(m), &input);
    assert_eq!(expected, actual);
}
