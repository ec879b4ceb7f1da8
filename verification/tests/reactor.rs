use advent::reactor::{
    begins_a_step, filter_p1, intersect, intersect_1d, parse_line, read_data, reboot,
    remove_intersecting,
    set_intersecting, total_volume, total_volume_p1, volume_within_p1, without, Rect,
};

fn chars(s: &str) -> Vec<char> {
    s.chars().collect()
}

fn cube(lo: i32, hi: i32) -> Rect {
    Rect { x: (lo, hi), y: (lo, hi), z: (lo, hi) }
}

#[test]
fn volume_counts_both_ends() {
    assert_eq!(cube(10, 12).volume(), 27);
    assert_eq!(Rect { x: (0, 0), y: (-1, 1), z: (5, 8) }.volume(), 12);
}

#[test]
fn intersect_1d_overlap_and_gap() {
    assert_eq!(intersect_1d((0, 5), (3, 9)), Some((3, 5)));
    assert_eq!(intersect_1d((0, 5), (5, 9)), Some((5, 5)));
    assert_eq!(intersect_1d((0, 5), (6, 9)), None);
}

#[test]
fn intersect_boxes() {
    let r = intersect(&cube(10, 12), &cube(11, 13)).unwrap();
    assert_eq!((r.x, r.y, r.z), ((11, 12), (11, 12), (11, 12)));
    assert!(intersect(&cube(0, 1), &cube(2, 3)).is_none());
}

#[test]
fn without_disjoint_keeps_box() {
    let ls = without(&cube(0, 1), &cube(5, 6));
    assert_eq!(ls.len(), 1);
    assert_eq!(ls[0].volume(), 8);
}

#[test]
fn without_cuts_corner() {
    let ls = without(&cube(10, 12), &cube(11, 13));
    let total: u64 = ls.iter().map(|r| r.volume()).sum();
    assert_eq!(total, 27 - 8);
    assert_eq!(ls.len(), 3);
    assert_eq!((ls[0].x, ls[0].y, ls[0].z), ((10, 10), (10, 12), (10, 12)));
    assert_eq!((ls[1].x, ls[1].y, ls[1].z), ((11, 12), (10, 10), (10, 12)));
    assert_eq!((ls[2].x, ls[2].y, ls[2].z), ((11, 12), (11, 12), (10, 10)));
}

#[test]
fn without_inner_box_gives_six_slabs() {
    let ls = without(&cube(0, 4), &cube(2, 2));
    assert_eq!(ls.len(), 6);
    let total: u64 = ls.iter().map(|r| r.volume()).sum();
    assert_eq!(total, 125 - 1);
}

#[test]
fn without_covering_box_leaves_nothing() {
    assert!(without(&cube(2, 3), &cube(0, 9)).is_empty());
}

#[test]
fn filter_p1_clips_to_small_region() {
    let r = filter_p1(&Rect { x: (-60, -40), y: (0, 0), z: (49, 80) }).unwrap();
    assert_eq!((r.x, r.y, r.z), ((-50, -40), (0, 0), (49, 50)));
    assert!(filter_p1(&cube(51, 60)).is_none());
    assert_eq!(volume_within_p1(&cube(51, 60)), 0);
    assert_eq!(volume_within_p1(&cube(-100, 100)), 101 * 101 * 101);
}

#[test]
fn remove_and_set_keep_order() {
    let mut ls = vec![cube(0, 1), cube(10, 12)];
    remove_intersecting(&mut ls, &cube(11, 13));
    assert_eq!(ls.len(), 4);
    assert_eq!(ls[0].x, (0, 1));
    set_intersecting(&mut ls, (true, cube(11, 13)));
    assert_eq!(ls.len(), 5);
    assert_eq!(ls[0].x, (11, 13));
    set_intersecting(&mut ls, (false, cube(0, 1)));
    assert_eq!(ls.len(), 4);
}

#[test]
fn parse_line_on_and_off() {
    let (on, r) = parse_line(&chars("on x=-20..26,y=-36..17,z=-47..7")).unwrap();
    assert!(on);
    assert_eq!((r.x, r.y, r.z), ((-20, 26), (-36, 17), (-47, 7)));
    let (on, r) = parse_line(&chars("off x=9..11,y=9..11,z=9..11")).unwrap();
    assert!(!on);
    assert_eq!(r.x, (9, 11));
}

#[test]
fn parse_line_rejects_malformed() {
    assert!(parse_line(&chars("on x=1..2,y=1..2")).is_none());
    assert!(parse_line(&chars("on x=1..2,y=1..2,z=1-2")).is_none());
    assert!(parse_line(&chars("on x=1..2,y=1..2,z=1..99999999999")).is_none());
    assert!(parse_line(&chars("off ")).is_none());
}

#[test]
fn a_step_begins_with_on_or_off() {
    assert!(begins_a_step(&chars("on x=1..2,y=1..2,z=1..2")));
    assert!(begins_a_step(&chars("off x=1..2,y=1..2,z=1..2")));
    assert!(begins_a_step(&chars("on ")));
    assert!(!begins_a_step(&chars("toggle x=1..2,y=1..2,z=1..2")));
    assert!(!begins_a_step(&chars("on")));
    assert!(!begins_a_step(&chars("off")));
    assert!(!begins_a_step(&chars(" on x=1..2,y=1..2,z=1..2")));
    assert!(!begins_a_step(&chars("")));
}

#[test]
fn lines_that_name_no_step_are_refused() {
    for bad in ["toggle x=1..2,y=1..2,z=1..2", "", "On x=1..2,y=1..2,z=1..2"] {
        let lines = vec![chars("on x=1..2,y=1..2,z=1..2"), chars(bad)];
        assert!(read_data(&lines).is_none());
    }
}

#[test]
fn small_example_lights_39_cubes() {
    let lines: Vec<Vec<char>> = [
        "on x=10..12,y=10..12,z=10..12",
        "on x=11..13,y=11..13,z=11..13",
        "off x=9..11,y=9..11,z=9..11",
        "on x=10..10,y=10..10,z=10..10",
    ]
        .iter()
        .map(|s| chars(s))
        .collect();
    let steps = read_data(&lines).unwrap();
    let ls = reboot(&steps);
    assert_eq!(total_volume(&ls), 39);
    assert_eq!(total_volume_p1(&ls), 39);
}

#[test]
fn read_data_fails_on_bad_line() {
    let lines = vec![chars("on x=1..2,y=1..2,z=1..2"), chars("nonsense")];
    assert!(read_data(&lines).is_none());
}

#[test]
fn region_outside_counts_only_in_total() {
    let steps = vec![(true, cube(-52, -50)), (true, cube(100, 100))];
    let ls = reboot(&steps);
    assert_eq!(total_volume(&ls), 28);
    assert_eq!(total_volume_p1(&ls), 1);
}

#[test]
fn cutting_leaves_the_cubes_not_shared() {
    let a = Rect { x: (-3, 4), y: (0, 5), z: (2, 9) };
    for rem in [
        Rect { x: (0, 1), y: (1, 2), z: (3, 4) },
        Rect { x: (-10, 0), y: (3, 30), z: (9, 9) },
        Rect { x: (-10, 10), y: (-10, 10), z: (-10, 10) },
        Rect { x: (5, 6), y: (0, 5), z: (2, 9) },
        a,
    ] {
        let shared = intersect(&a, &rem).map(|r| r.volume()).unwrap_or(0);
        assert_eq!(total_volume(&without(&a, &rem)), a.volume() - shared);
        let mut ls = vec![a, Rect { x: (20, 21), y: (0, 0), z: (0, 0) }];
        set_intersecting(&mut ls, (true, rem));
        assert_eq!(total_volume(&ls), a.volume() - shared + 2 + rem.volume());
        set_intersecting(&mut ls, (false, rem));
        assert_eq!(total_volume(&ls), a.volume() - shared + 2);
    }
    assert_eq!(a.volume(), 8 * 6 * 8);
}

#[test]
fn cutting_leaves_each_cube_in_as_many_boxes() {
    // two boxes that overlap, so that some cubes stand in both
    let mut ls = vec![Rect { x: (0, 3), y: (0, 3), z: (0, 0) }, Rect { x: (2, 5), y: (2, 5), z: (0, 0) }];
    let before = ls.clone();
    let rem = Rect { x: (3, 4), y: (1, 3), z: (0, 0) };
    remove_intersecting(&mut ls, &rem);
    let holds = |r: &Rect, p: (i32, i32)| r.x.0 <= p.0 && p.0 <= r.x.1 && r.y.0 <= p.1 && p.1 <= r.y.1;
    for x in -1..7 {
        for y in -1..7 {
            let was = before.iter().filter(|r| holds(r, (x, y))).count();
            let is = ls.iter().filter(|r| holds(r, (x, y))).count();
            assert_eq!(is, if holds(&rem, (x, y)) { 0 } else { was });
        }
    }
}
