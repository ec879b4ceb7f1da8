use advent::crabs::{arrange, numbers_from, p1, p2, read_data, rising_fuel};

fn chars(s: &str) -> Vec<char> {
    s.chars().collect()
}

#[test]
fn read_data_finds_runs_of_digits() {
    assert_eq!(read_data(&chars("16,1,2,0,4,2,7,1,2,14\n")), Some(vec![16, 1, 2, 0, 4, 2, 7, 1, 2, 14]));
    assert_eq!(read_data(&chars("a12b-3 4")), Some(vec![12, 3, 4]));
    assert_eq!(read_data(&chars("")), Some(vec![]));
    assert_eq!(read_data(&chars("1,99999999999")), None);
}

#[test]
fn numbers_from_texts() {
    assert_eq!(numbers_from(&vec![chars("1"), chars("-2")]), Some(vec![1, -2]));
    assert_eq!(numbers_from(&vec![chars("1"), chars("x")]), None);
    assert_eq!(numbers_from(&vec![]), Some(vec![]));
}

#[test]
fn sample_fuel() {
    let mut data = read_data(&chars("16,1,2,0,4,2,7,1,2,14")).unwrap();
    arrange(&mut data);
    assert_eq!(data, vec![0, 1, 1, 2, 2, 2, 4, 7, 14, 16]);
    assert_eq!(p1(&data), Some(37));
    assert_eq!(p2(&data), Some(168));
}

#[test]
fn rising_fuel_values() {
    let data = vec![16, 1, 2, 0, 4, 2, 7, 1, 2, 14];
    assert_eq!(rising_fuel(&data, 5), Some(168));
    assert_eq!(rising_fuel(&data, 2), Some(206));
    assert_eq!(rising_fuel(&vec![], 3), Some(0));
    assert_eq!(rising_fuel(&vec![0], 100000), None);
}

#[test]
fn empty_and_overflow() {
    assert_eq!(p1(&vec![]), None);
    assert_eq!(p2(&vec![]), None);
    assert_eq!(p1(&vec![i32::MIN, 0, i32::MAX]), None);
    assert_eq!(p1(&vec![5]), Some(0));
    assert_eq!(p2(&vec![5]), Some(0));
    assert_eq!(p2(&vec![3, 1]), None);
}
