use matrix_mult2::matrix::{Matrix, check, multiply, strassen};
use matrix_mult2::do_test;

fn to_rows(m: &Matrix, n: usize) -> Vec<Vec<i64>> {
    let mut rows: Vec<Vec<i64>> = Vec::new();
    let mut i = 0;
    while i < n {
        let mut row: Vec<i64> = Vec::new();
        let mut j = 0;
        while j < n {
            row.push(m.get(i, j));
            j += 1;
        }
        rows.push(row);
        i += 1;
    }
    rows
}

#[test]
fn standard_two_by_two_scenario() {
    let a = Matrix::from_vec(vec![1, 2, 3, 4], 2);
    let b = Matrix::from_vec(vec![5, 6, 7, 8], 2);
    let r = multiply(&a, &b);
    assert_eq!(to_rows(&r, 2), vec![vec![19, 22], vec![43, 50]]);
}

#[test]
fn strassen_two_by_two_scenario() {
    let a = Matrix::from_vec(vec![1, 2, 3, 4], 2);
    let b = Matrix::from_vec(vec![5, 6, 7, 8], 2);
    let r = strassen(&a, &b);
    assert_eq!(to_rows(&r, 2), vec![vec![19, 22], vec![43, 50]]);
    let s = multiply(&a, &b);
    assert!(check(&r, &s));
}

#[test]
fn strassen_three_by_three_pads_to_four() {
    let a = Matrix::from_vec(vec![1, 2, 3, 4, 5, 6, 7, 8, 9], 3);
    let p = a.pad();
    assert_eq!(p.get(0, 3), 0);
    assert_eq!(p.get(3, 3), 0);
    assert_eq!(p.get(2, 2), 9);
    let b = Matrix::from_vec(vec![9, 8, 7, 6, 5, 4, 3, 2, 1], 3);
    let r = strassen(&a, &b);
    let s = multiply(&a, &b);
    assert!(check(&r, &s));
    assert_eq!(to_rows(&r, 3), to_rows(&s, 3));
    assert_eq!(r.get(0, 0), 1 * 9 + 2 * 6 + 3 * 3);
}

#[test]
fn pad_keeps_power_of_two_size() {
    let a = Matrix::from_vec(vec![1, 2, 3, 4], 2);
    let p = a.pad();
    assert_eq!(p.get(1, 1), 4);
    let mut count = 0;
    let mut i = 0;
    while i < 2 {
        let mut j = 0;
        while j < 2 {
            assert_eq!(p.get(i, j), a.get(i, j));
            count += 1;
            j += 1;
        }
        i += 1;
    }
    assert_eq!(count, 4);
}

#[test]
fn pad_then_trim_round_trip() {
    let a = Matrix::from_vec(vec![1, 2, 3, 4, 5, 6, 7, 8, 9], 3);
    let p = a.pad();
    let t = p.get_trimmed(3);
    assert_eq!(to_rows(&t, 3), to_rows(&a, 3));
}

#[test]
fn split_then_join_round_trip() {
    let a = Matrix::from_vec(vec![1, 2, 3, 4, 5, 6, 7, 8, 9, 10, 11, 12, 13, 14, 15, 16], 4);
    let (q1, q2, q3, q4) = a.get_submatrices();
    assert_eq!(q1.get(0, 0), 1);
    assert_eq!(q2.get(0, 0), 3);
    assert_eq!(q3.get(0, 0), 9);
    assert_eq!(q4.get(1, 1), 16);
    let r = Matrix::from_submatrices(q1, q2, q3, q4);
    assert_eq!(to_rows(&r, 4), to_rows(&a, 4));
}

#[test]
fn add_then_subtract_round_trip() {
    let a = Matrix::from_vec(vec![1, -2, 3, -4], 2);
    let b = Matrix::from_vec(vec![10, 20, -30, 40], 2);
    let s = matrix_mult2::matrix::add(&a, &b);
    let d = matrix_mult2::matrix::subtract(&s, &b);
    assert_eq!(to_rows(&d, 2), to_rows(&a, 2));
    assert_eq!(s.get(0, 0), 11);
    assert_eq!(d.get(1, 0), 3);
}

#[test]
fn zero_matrix_annihilates_both_algorithms() {
    let a = Matrix::from_vec(vec![1, 2, 3, 4], 2);
    let z = Matrix::new(2);
    let r1 = multiply(&a, &z);
    let r2 = strassen(&a, &z);
    let r3 = multiply(&z, &a);
    let r4 = strassen(&z, &a);
    for r in [&r1, &r2, &r3, &r4] {
        assert_eq!(to_rows(r, 2), vec![vec![0, 0], vec![0, 0]]);
    }
}

#[test]
fn check_rejects_tolerance_breach() {
    // 1000400 and 1001600 micro-units round to 1000 and 1002 thousandths.
    let a = Matrix::from_vec(vec![1000400], 1);
    let b = Matrix::from_vec(vec![1001600], 1);
    assert!(!check(&a, &b));
    // 1000400 and 1000100 both round to 1000 thousandths: within tolerance.
    let c = Matrix::from_vec(vec![1000100], 1);
    assert!(check(&a, &c));
}

#[test]
fn check_rejects_size_mismatch() {
    let a = Matrix::new(2);
    let b = Matrix::new(3);
    assert!(!check(&a, &b));
}

#[test]
fn random_matrix_is_fresh_and_in_range() {
    let a = Matrix::random(8);
    let mut i = 0;
    while i < 8 {
        let mut j = 0;
        while j < 8 {
            let e = a.get(i, j);
            assert!(0 <= e && e < 1000000);
            j += 1;
        }
        i += 1;
    }
}

#[test]
fn random_multiplication_agreement() {
    let a = Matrix::random(5);
    let b = Matrix::random(5);
    let r = multiply(&a, &b);
    let s = strassen(&a, &b);
    assert!(check(&r, &s));
    assert_eq!(to_rows(&r, 5), to_rows(&s, 5));
}

#[test]
fn do_test_sweep_runs() {
    do_test();
}
