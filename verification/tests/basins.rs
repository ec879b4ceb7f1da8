use advent::basins::{
    basin_sizes, find_drains_to, get_adjacent, get_dig_bound, low_points, read_data, risk_level,
    top_three,
};

fn lines(text: &str) -> Vec<Vec<char>> {
    text.lines().map(|l| l.chars().collect()).collect()
}

const SAMPLE: &str = "2199943210
3987894921
9856789892
8767896789
9899965678";

#[test]
fn read_data_keeps_digits_only() {
    let data = read_data(&lines("12a3\n\n90"));
    assert_eq!(data, vec![vec![1, 2, 3], vec![], vec![9, 0]]);
}

#[test]
fn dig_bound_is_255_off_the_map() {
    let data = read_data(&lines(SAMPLE));
    assert_eq!(get_dig_bound(&data, 0, 0), 2);
    assert_eq!(get_dig_bound(&data, 4, 9), 8);
    assert_eq!(get_dig_bound(&data, -1, 0), 255);
    assert_eq!(get_dig_bound(&data, 0, -1), 255);
    assert_eq!(get_dig_bound(&data, 5, 0), 255);
    assert_eq!(get_dig_bound(&data, 0, 10), 255);
}

#[test]
fn adjacent_in_order_right_left_down_up() {
    assert_eq!(get_adjacent(1, 1, 3, 3), vec![(1, 2), (1, 0), (2, 1), (0, 1)]);
    assert_eq!(get_adjacent(0, 0, 3, 3), vec![(0, 1), (1, 0)]);
    assert_eq!(get_adjacent(2, 2, 3, 3), vec![(2, 1), (1, 2)]);
    assert_eq!(get_adjacent(0, 0, 1, 1), vec![]);
}

#[test]
fn sample_low_points_and_risk() {
    let data = read_data(&lines(SAMPLE));
    let lows = low_points(&data, 5, 10);
    assert_eq!(lows, vec![(0, 1), (0, 9), (2, 2), (4, 6)]);
    assert_eq!(risk_level(&data, &lows), Some(15));
}

#[test]
fn sample_basins() {
    let data = read_data(&lines(SAMPLE));
    let basin = find_drains_to(&data, 0, 1, 5, 10);
    let mut cells = basin.clone();
    cells.sort();
    assert_eq!(cells, vec![(0, 0), (0, 1), (1, 0)]);
    let lows = low_points(&data, 5, 10);
    let sizes = basin_sizes(&data, &lows, 5, 10);
    assert_eq!(sizes, vec![3, 9, 14, 9]);
    assert_eq!(top_three(&sizes), (14, 9, 9));
}

#[test]
fn top_three_with_few_sizes() {
    assert_eq!(top_three(&vec![]), (0, 0, 0));
    assert_eq!(top_three(&vec![5]), (5, 0, 0));
    assert_eq!(top_three(&vec![1, 2, 3, 4]), (4, 3, 2));
    assert_eq!(top_three(&vec![4, 4, 1]), (4, 4, 1));
}

#[test]
fn basin_stops_at_nine_and_downhill() {
    let data = vec![vec![1, 9, 1], vec![2, 9, 0], vec![3, 4, 5]];
    let mut basin = find_drains_to(&data, 0, 0, 3, 3);
    basin.sort();
    assert_eq!(basin, vec![(0, 0), (1, 0), (2, 0), (2, 1), (2, 2)]);
}
