use advent::vents::{
    arrange, calc_p1, calc_p2, gcd, offer, read_data, simple_line_to_events, Direction, Line,
    LineEndType, LineEventType, SimpleLine, Vec2i,
};

fn lines(text: &str) -> Vec<Vec<char>> {
    text.lines().map(|l| l.chars().collect()).collect()
}

const SAMPLE: &str = "0,9 -> 5,9
8,0 -> 0,8
9,4 -> 3,4
2,2 -> 2,1
7,0 -> 7,4
6,4 -> 2,0
0,9 -> 2,9
3,4 -> 1,4
0,0 -> 8,8
5,5 -> 8,2";

fn line(a: (i32, i32), b: (i32, i32)) -> Line {
    Line { start: Vec2i::new(a.0, a.1), end: Vec2i::new(b.0, b.1) }
}

#[test]
fn gcd_values() {
    assert_eq!(gcd(12, 18), 6);
    assert_eq!(gcd(18, 12), 6);
    assert_eq!(gcd(7, 0), 7);
    assert_eq!(gcd(0, 7), 7);
    assert_eq!(gcd(0, 0), 1);
    assert_eq!(gcd(17, 5), 1);
}

#[test]
fn vector_arithmetic() {
    let a = Vec2i::new(3, -4);
    let b = Vec2i::new(-1, 10);
    assert_eq!(a.add(b), Vec2i::new(2, 6));
    assert_eq!(a.sub(b), Vec2i::new(4, -14));
    let mut c = a;
    c.add_assign(b);
    assert_eq!(c, Vec2i::new(2, 6));
}

#[test]
fn unit_diff_shortens_step() {
    assert_eq!(Vec2i::new(6, -9).unit_diff(), Vec2i::new(2, -3));
    assert_eq!(Vec2i::new(0, 5).unit_diff(), Vec2i::new(0, 1));
    assert_eq!(Vec2i::new(-4, 0).unit_diff(), Vec2i::new(-1, 0));
    assert_eq!(Vec2i::new(0, 0).unit_diff(), Vec2i::new(0, 0));
    assert_eq!(Vec2i::new(-8, -8).unit_diff(), Vec2i::new(-1, -1));
}

#[test]
fn get_points_walks_the_line() {
    let p = line((1, 1), (1, 3)).get_points();
    assert_eq!(p, vec![Vec2i::new(1, 1), Vec2i::new(1, 2), Vec2i::new(1, 3)]);
    let p = line((7, 9), (9, 7)).get_points();
    assert_eq!(p, vec![Vec2i::new(7, 9), Vec2i::new(8, 8), Vec2i::new(9, 7)]);
    let p = line((0, 0), (4, 2)).get_points();
    assert_eq!(p, vec![Vec2i::new(0, 0), Vec2i::new(2, 1), Vec2i::new(4, 2)]);
}

#[test]
fn get_points_of_reversed_line_is_empty() {
    assert!(line((5, 5), (2, 5)).get_points().is_empty());
    assert!(line((5, 5), (5, 4)).get_points().is_empty());
}

#[test]
fn read_data_orders_the_ends() {
    let data = read_data(&lines("9,4 -> 3,4\n0,9 -> 5,9")).unwrap();
    assert_eq!(data[0], line((3, 4), (9, 4)));
    assert_eq!(data[1], line((0, 9), (5, 9)));
}

#[test]
fn vents_rejects_malformed() {
    assert!(read_data(&lines("1,2 -> 3")).is_none());
    assert!(read_data(&lines("1,2 -> 3,99999999999")).is_none());
    assert!(read_data(&lines("x1,2 -> 3,4")).is_none());
}

#[test]
fn sample_counts_crossings() {
    let data = read_data(&lines(SAMPLE)).unwrap();
    assert_eq!(calc_p1(&data), 5);
    assert_eq!(calc_p2(&data), 12);
}

#[test]
fn arrange_keeps_first_line_of_each_start() {
    let data = read_data(&lines(SAMPLE)).unwrap();
    let set = arrange(&data);
    assert_eq!(set.len(), 9);
    for w in set.windows(2) {
        assert!((w[0].start.x, w[0].start.y) < (w[1].start.x, w[1].start.y));
    }
    assert!(set.contains(&line((0, 9), (5, 9))));
    assert!(!set.contains(&line((0, 9), (2, 9))));
    assert_eq!(calc_p1(&set), 2);
    assert_eq!(calc_p2(&set), 9);
}

#[test]
fn offer_inserts_in_order() {
    let mut set = Vec::new();
    offer(&mut set, line((5, 0), (6, 0)));
    offer(&mut set, line((1, 0), (2, 0)));
    offer(&mut set, line((3, 0), (4, 0)));
    offer(&mut set, line((3, 0), (9, 9)));
    assert_eq!(set, vec![line((1, 0), (2, 0)), line((3, 0), (4, 0)), line((5, 0), (6, 0))]);
}

#[test]
fn events_of_lines() {
    let l = line((1, 2), (3, 4));
    let ev = simple_line_to_events(l);
    assert_eq!(ev[0].line, l);
    assert_eq!(ev[0].t, LineEventType::Start);
    assert_eq!(ev[1].t, LineEventType::End);
    let s = SimpleLine { p: Vec2i::new(2, 3), d: Direction::Horizontal, len: 4 };
    let ev = s.into();
    assert_eq!((ev[0].p, ev[0].t), (Vec2i::new(2, 3), LineEndType::Start));
    assert_eq!((ev[1].p, ev[1].t), (Vec2i::new(6, 3), LineEndType::End));
    let s = SimpleLine { p: Vec2i::new(2, 3), d: Direction::Vertical, len: 4 };
    assert_eq!(s.into()[1].p, Vec2i::new(2, 7));
}

#[test]
fn crossings_agree_with_counting_on_a_grid() {
    let data = read_data(&lines(SAMPLE)).unwrap();
    let input = arrange(&data);
    for only_straight in [true, false] {
        let mut grid = vec![vec![0u32; 10]; 10];
        for l in input.iter() {
            if only_straight && l.start.x != l.end.x && l.start.y != l.end.y {
                continue;
            }
            let dx = (l.end.x - l.start.x).signum();
            let dy = (l.end.y - l.start.y).signum();
            let (mut x, mut y) = (l.start.x, l.start.y);
            loop {
                grid[y as usize][x as usize] += 1;
                if (x, y) == (l.end.x, l.end.y) {
                    break;
                }
                x += dx;
                y += dy;
            }
        }
        let twice = grid.iter().flatten().filter(|n| **n >= 2).count();
        let found = if only_straight { calc_p1(&input) } else { calc_p2(&input) };
        assert_eq!(found, twice);
    }
}
