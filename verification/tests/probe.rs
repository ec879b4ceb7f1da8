use advent::probe::{
    find_all_hitting, find_all_plus_divides, find_in_bounds, int_sqrt, read_data, solve,
    target_from_fields, try_divide,
};

fn chars(s: &str) -> Vec<char> {
    s.chars().collect()
}

#[test]
fn read_data_takes_four_bounds() {
    assert_eq!(read_data(&chars("target area: x=20..30, y=-10..-5")), Some((20, 30, -10, -5)));
    assert_eq!(read_data(&chars("target area: x=20..30, y=-10..-5\n")), Some((20, 30, -10, -5)));
    assert_eq!(read_data(&chars("target area: x=20..30")), None);
    assert_eq!(read_data(&chars("nothing")), None);
}

#[test]
fn target_from_fields_reads_numbers() {
    let f: Vec<Vec<char>> = ["1", "-2", "3", "4", "5"].iter().map(|s| chars(s)).collect();
    assert_eq!(target_from_fields(&f), Some((1, -2, 3, 4)));
    let f: Vec<Vec<char>> = ["1", "2", "3"].iter().map(|s| chars(s)).collect();
    assert_eq!(target_from_fields(&f), None);
    let f: Vec<Vec<char>> = ["1", "2", "", "4"].iter().map(|s| chars(s)).collect();
    assert_eq!(target_from_fields(&f), None);
}

#[test]
fn divisors() {
    assert_eq!(find_all_plus_divides(12), vec![1, 2, 3, 4, 6, 12]);
    assert_eq!(find_all_plus_divides(-10), vec![1, 2, 5, 10]);
    assert_eq!(find_all_plus_divides(1), vec![1]);
    assert_eq!(find_all_plus_divides(0), vec![]);
}

#[test]
fn exact_division() {
    assert_eq!(try_divide(12, 4), Some(3));
    assert_eq!(try_divide(12, 5), None);
    assert_eq!(try_divide(-12, 4), Some(-3));
    assert_eq!(try_divide(12, -4), Some(-3));
    assert_eq!(try_divide(-12, -4), Some(3));
    assert_eq!(try_divide(0, 7), Some(0));
    assert_eq!(try_divide(-7, 2), None);
    assert_eq!(try_divide(i32::MIN, 1), Some(i32::MIN));
    assert_eq!(try_divide(i32::MIN, 2), Some(-1073741824));
}

#[test]
fn square_roots() {
    assert_eq!(int_sqrt(0), Some(0));
    assert_eq!(int_sqrt(1), Some(1));
    assert_eq!(int_sqrt(2), None);
    assert_eq!(int_sqrt(3), None);
    assert_eq!(int_sqrt(4), Some(2));
    assert_eq!(int_sqrt(169), Some(13));
    assert_eq!(int_sqrt(170), None);
    assert_eq!(int_sqrt(46340 * 46340), Some(46340));
    assert_eq!(int_sqrt(i32::MAX - 1), None);
}

#[test]
fn points_of_the_area() {
    assert_eq!(find_in_bounds((1, 2, -1, 1)), vec![(1, -1), (1, 0), (1, 1), (2, -1), (2, 0), (2, 1)]);
    assert_eq!(find_in_bounds((3, 3, 4, 4)), vec![(3, 4)]);
    assert!(find_in_bounds((2, 1, 0, 0)).is_empty());
    assert!(find_in_bounds((0, 0, 1, 0)).is_empty());
}

#[test]
fn launches_onto_one_point() {
    // one step: the starting speed is the point itself
    let hits = find_all_hitting(7, -3);
    assert!(hits.contains(&(1, 7, -3)));
    for (n, _dx, dy) in hits.iter() {
        // after n steps the height is n*dy - n(n-1)/2
        assert_eq!(n * dy - n * (n - 1) / 2, -3);
    }
    assert!(find_all_hitting(5, 0).is_empty());
}

#[test]
fn sample_answer() {
    assert_eq!(solve((20, 30, -10, -5)), Some((45, 112)));
}

#[test]
fn empty_area_has_no_answer() {
    assert_eq!(solve((5, 4, -3, -2)), None);
}

/// Whether the launch meets the target on some step, step by step.
fn meets(target: (i32, i32, i32, i32), dx: i32, dy: i32) -> bool {
    let (mut x, mut y, mut vx, mut vy) = (0, 0, dx, dy);
    while y >= target.2 && x <= target.1 {
        x += vx;
        y += vy;
        vx = (vx - 1).max(0);
        vy -= 1;
        if target.0 <= x && x <= target.1 && target.2 <= y && y <= target.3 {
            return true;
        }
    }
    false
}

#[test]
fn launches_agree_with_flying_step_by_step() {
    for target in [(20, 30, -10, -5), (5, 9, -7, -3), (1, 3, -2, -1), (34, 40, -30, -27)] {
        let mut count = 0;
        let mut top = None;
        for dx in 0..=target.1 {
            for dy in target.2..=-target.2 {
                if meets(target, dx, dy) {
                    count += 1;
                    top = top.max(Some(dy));
                }
            }
        }
        let top = top.unwrap();
        assert_eq!(solve(target), Some((top * (top + 1) / 2, count)));
    }
}
