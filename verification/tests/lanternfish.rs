use advent::lanternfish::{
    census, matrix_multiply, matrix_pow, read_data, sim_for, sum_data, Matrix,
};

fn chars(s: &str) -> Vec<char> {
    s.chars().collect()
}

fn m(rows: usize, cols: usize, v: &[i128]) -> Matrix {
    Matrix { rows, cols, backing: v.to_vec() }
}

#[test]
fn read_data_parses_timers() {
    assert_eq!(read_data(&chars("3,4,3,1,2\n")), Some(vec![3, 4, 3, 1, 2]));
    assert_eq!(read_data(&chars("7")), Some(vec![7]));
    assert_eq!(read_data(&chars("3,,4")), None);
    assert_eq!(read_data(&chars("3,x")), None);
}

#[test]
fn census_counts_each_timer() {
    assert_eq!(census(&vec![3, 4, 3, 1, 2]), Some([0, 1, 1, 2, 1, 0, 0, 0, 0]));
    assert_eq!(census(&vec![]), Some([0; 9]));
    assert_eq!(census(&vec![9]), None);
    assert_eq!(census(&vec![-1]), None);
}

#[test]
fn ident_is_identity() {
    let i = Matrix::ident(3);
    assert_eq!(i.backing, vec![1, 0, 0, 0, 1, 0, 0, 0, 1]);
    let a = m(3, 3, &[1, 2, 3, 4, 5, 6, 7, 8, 9]);
    assert_eq!(matrix_multiply(&a, &i).unwrap().backing, a.backing);
    assert_eq!(matrix_multiply(&i, &a).unwrap().backing, a.backing);
}

#[test]
fn multiply_rectangular() {
    let a = m(2, 3, &[1, 2, 3, 4, 5, 6]);
    let b = m(3, 2, &[7, 8, 9, 10, 11, 12]);
    let c = matrix_multiply(&a, &b).unwrap();
    assert_eq!((c.rows, c.cols), (2, 2));
    assert_eq!(c.backing, vec![58, 64, 139, 154]);
}

#[test]
fn multiply_reports_overflow() {
    let a = m(1, 1, &[i128::MAX]);
    let b = m(1, 1, &[2]);
    assert!(matrix_multiply(&a, &b).is_none());
}

#[test]
fn power_by_squaring() {
    let a = m(2, 2, &[1, 1, 1, 0]);
    assert_eq!(matrix_pow(&a, 0).unwrap().backing, vec![1, 0, 0, 1]);
    assert_eq!(matrix_pow(&a, 1).unwrap().backing, vec![1, 1, 1, 0]);
    assert_eq!(matrix_pow(&a, 10).unwrap().backing, vec![89, 55, 55, 34]);
    assert_eq!(matrix_pow(&a, 11).unwrap().backing, vec![144, 89, 89, 55]);
}

#[test]
fn sample_grows_as_told() {
    let mut data = census(&read_data(&chars("3,4,3,1,2")).unwrap()).unwrap();
    assert!(sim_for(&mut data, 18));
    assert_eq!(sum_data(&data), Some(26));
    assert!(sim_for(&mut data, 62));
    assert_eq!(sum_data(&data), Some(5934));
    assert!(sim_for(&mut data, 176));
    assert_eq!(sum_data(&data), Some(26984457539));
}

#[test]
fn one_day_shifts_timers() {
    let mut data = [1, 2, 3, 4, 5, 6, 7, 8, 9];
    assert!(sim_for(&mut data, 1));
    assert_eq!(data, [2, 3, 4, 5, 6, 7, 9, 9, 1]);
    let mut same = [1, 2, 3, 4, 5, 6, 7, 8, 9];
    assert!(sim_for(&mut same, 0));
    assert_eq!(same, [1, 2, 3, 4, 5, 6, 7, 8, 9]);
}

#[test]
fn sum_reports_overflow() {
    assert_eq!(sum_data(&[i128::MAX, 1, 0, 0, 0, 0, 0, 0, 0]), None);
    assert_eq!(sum_data(&[0; 9]), Some(0));
}

#[test]
fn matrices_add_and_subtract() {
    let a = m(2, 2, &[1, 2, 3, 4]);
    let b = m(2, 2, &[10, 20, 30, -40]);
    assert_eq!(a.add(&b).unwrap().backing, vec![11, 22, 33, -36]);
    assert_eq!(a.sub(&b).unwrap().backing, vec![-9, -18, -27, 44]);
    let top = m(1, 2, &[i128::MAX, 0]);
    let one = m(1, 2, &[1, 1]);
    assert!(top.add(&one).is_none());
    assert_eq!(top.sub(&one).unwrap().backing, vec![i128::MAX - 1, -1]);
    let low = m(1, 2, &[0, i128::MIN]);
    assert!(low.sub(&one).is_none());
    assert_eq!(low.add(&one).unwrap().backing, vec![1, i128::MIN + 1]);
}

#[test]
fn overflow_is_reported() {
    let big = m(1, 1, &[i128::MAX]);
    assert!(matrix_multiply(&big, &m(1, 1, &[2])).is_none());
    assert_eq!(matrix_multiply(&big, &m(1, 1, &[1])).unwrap().backing, vec![i128::MAX]);
    let two = m(1, 1, &[2]);
    assert_eq!(matrix_pow(&two, 126).unwrap().backing, vec![1i128 << 126]);
    assert!(matrix_pow(&two, 127).is_none());
    assert!(sum_data(&[i128::MAX, 1, 0, 0, 0, 0, 0, 0, 0]).is_none());
    // the sums are made from the left, so a later number cannot bring one back
    assert!(sum_data(&[i128::MAX, 1, -5, 0, 0, 0, 0, 0, 0]).is_none());
    assert_eq!(sum_data(&[i128::MAX, -5, 1, 0, 0, 0, 0, 0, 0]), Some(i128::MAX - 4));
    let mut data = [i128::MAX / 2, 0, 0, 0, 0, 0, 0, 0, 0];
    assert!(sim_for(&mut data, 7));
    // the fish at 0 and the fish at 7 meet at 6
    let mut data = [i128::MAX, 0, 0, 0, 0, 0, 0, 1, 0];
    let before = data;
    assert!(!sim_for(&mut data, 1));
    assert_eq!(data, before);
    let mut data = [i128::MAX, 0, 0, 0, 0, 0, 0, 0, 0];
    assert!(sim_for(&mut data, 9));
    assert_eq!(data, [i128::MAX, 0, 0, 0, 0, i128::MAX, 0, i128::MAX, 0]);
}

#[test]
fn matrix_agrees_with_counting_day_by_day() {
    let start: [i128; 9] = [3, 1, 4, 1, 5, 9, 2, 6, 5];
    let mut slow = start;
    for day in 1..=40usize {
        let born = slow[0];
        for t in 0..8 {
            slow[t] = slow[t + 1];
        }
        slow[6] += born;
        slow[8] = born;
        let mut fast = start;
        assert!(sim_for(&mut fast, day));
        assert_eq!(fast, slow);
    }
}

#[test]
fn power_for_one_more_is_the_power_times_the_matrix() {
    let a = m(3, 3, &[2, -1, 0, 1, 3, 5, 0, 4, -2]);
    for e in 0..20 {
        let less = matrix_pow(&a, e).unwrap();
        let more = matrix_pow(&a, e + 1).unwrap();
        assert_eq!(more.backing, matrix_multiply(&less, &a).unwrap().backing);
        assert_eq!(more.backing, matrix_multiply(&a, &less).unwrap().backing);
    }
    assert_eq!(matrix_pow(&a, 2).unwrap().backing, vec![3, -5, -5, 5, 28, 5, 4, 4, 24]);
}
