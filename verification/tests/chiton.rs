use advent::chiton::{expand, read_data, Grid};

fn lines(text: &str) -> Vec<Vec<char>> {
    text.lines().map(|l| l.chars().collect()).collect()
}

const SAMPLE: &str = "1163751742
1381373672
2136511328
3694931569
7463417111
1319128137
1359912421
3125421639
1293138521
2311944581";

#[test]
fn read_data_builds_grid() {
    let g = read_data(&lines("12\n34\n56"));
    assert_eq!((g.rows, g.cols), (3, 2));
    assert_eq!(g.backer, vec![1, 2, 3, 4, 5, 6]);
    assert_eq!(g.get(2, 1), 6);
    assert_eq!(g.index(1), &[3, 4]);
}

#[test]
fn from_iterator_takes_width_of_first_row() {
    let g = Grid::from_iterator(&vec![vec![1u8, 2, 3], vec![4, 5, 6]]);
    assert_eq!((g.rows, g.cols), (2, 3));
    assert_eq!(g.backer, vec![1, 2, 3, 4, 5, 6]);
    let e: Grid<u8> = Grid::from_iterator(&vec![]);
    assert_eq!((e.rows, e.cols), (0, 0));
}

#[test]
fn adjacent_up_left_down_right() {
    let g = read_data(&lines("123\n456\n789"));
    assert_eq!(g.find_adjacent(1, 1), vec![(0, 1), (1, 0), (2, 1), (1, 2)]);
    assert_eq!(g.find_adjacent(0, 0), vec![(1, 0), (0, 1)]);
    assert_eq!(g.find_adjacent(2, 2), vec![(1, 2), (2, 1)]);
    assert_eq!(g.find_adjacent_values(1, 1), vec![2, 4, 8, 6]);
    assert_eq!(g.find_adjacent_values(0, 2), vec![2, 6]);
}

#[test]
fn copy_map_and_with_size() {
    let g = read_data(&lines("12\n34"));
    let doubled = g.copy_map(|v| (*v as u32) * 2);
    assert_eq!(doubled.backer, vec![2, 4, 6, 8]);
    let made = Grid::with_size(2, 3, |y, x| y * 10 + x);
    assert_eq!(made.backer, vec![0, 1, 2, 10, 11, 12]);
    assert_eq!((made.rows, made.cols), (2, 3));
}

#[test]
fn put_sets_one_place() {
    let mut g = read_data(&lines("12\n34"));
    g.put(1, 0, 9);
    assert_eq!(g.backer, vec![1, 2, 9, 4]);
}

#[test]
fn sample_cheapest_path() {
    let g = read_data(&lines(SAMPLE));
    assert_eq!(g.cheapest_path(), 40);
}

#[test]
fn sample_full_map() {
    let g = read_data(&lines(SAMPLE));
    let full = expand(&g);
    assert_eq!((full.rows, full.cols), (50, 50));
    assert_eq!(full.get(0, 10), 2);
    assert_eq!(full.get(10, 0), 2);
    assert_eq!(full.get(49, 49), 9);
    assert_eq!(full.cheapest_path(), 315);
}

#[test]
fn expand_wraps_after_nine() {
    let g = read_data(&lines("8"));
    let full = expand(&g);
    assert_eq!(full.index(0), &[8, 9, 1, 2, 3]);
    assert_eq!(full.index(4), &[3, 4, 5, 6, 7]);
}

#[test]
fn single_place_costs_nothing() {
    assert_eq!(read_data(&lines("7")).cheapest_path(), 0);
    assert_eq!(read_data(&lines("19\n11")).cheapest_path(), 2);
    assert_eq!(read_data(&lines("123")).cheapest_path(), 5);
}

#[test]
fn path_may_turn_back() {
    // the cheapest way runs up again in the middle column
    let g = read_data(&lines("19111\n11191\n99991"));
    assert_eq!(g.cheapest_path(), 8);
}
