use advent::beacons::{
    combine_placed_chunks, combine_rt, empty_rotation, generate_all_rotations, line_as_coords,
    matrix_multiply, p1, read_data, try_find_rt, try_find_trans, FreeChunk, Matrix, Rot,
    RotAndTrans, Vec3i,
};

fn chars(s: &str) -> Vec<char> {
    s.chars().collect()
}

fn xyz(v: &Vec3i) -> (i32, i32, i32) {
    (v.0.backing[0], v.0.backing[1], v.0.backing[2])
}

/// `n` scattered points; `seed` picks the scatter.
fn scatter(n: usize, seed: u64) -> Vec<Vec3i> {
    let mut state = seed;
    let mut next = || {
        state = (state * 1103515245 + 12345) % 2147483648;
        ((state >> 8) % 1600) as i32 - 800
    };
    (0..n).map(|_| Vec3i::new(next(), next(), next())).collect()
}

/// The points as a scanner at `at`, turned by `rot`, sees them.
fn seen_from(points: &[Vec3i], rot: &Rot, at: Vec3i) -> Vec<Vec3i> {
    let back = rot.inverse();
    points.iter().map(|p| p.sub(at).apply_rot(&back)).collect()
}

fn det(m: &[i32; 9]) -> i32 {
    m[0] * (m[4] * m[8] - m[5] * m[7]) - m[1] * (m[3] * m[8] - m[5] * m[6])
        + m[2] * (m[3] * m[7] - m[4] * m[6])
}

#[test]
fn matrices() {
    let a = Matrix { backing: [1, 2, 3, 4] };
    let b = Matrix { backing: [5, 6, 7, 8] };
    assert_eq!(a.add(b).backing, [6, 8, 10, 12]);
    assert_eq!(a.sub(b).backing, [-4, -4, -4, -4]);
    assert_eq!(a.transpose(2).backing, [1, 3, 2, 4]);
    let p: Matrix<4> = matrix_multiply(&a, &b, 2, 2, 2);
    assert_eq!(p.backing, [19, 22, 43, 50]);
    let row = Matrix { backing: [1, 2, 3] };
    let col = Matrix { backing: [4, 5, 6] };
    let inner: Matrix<1> = matrix_multiply(&row, &col, 1, 3, 1);
    assert_eq!(inner.backing, [32]);
    let outer: Matrix<9> = matrix_multiply(&col, &row, 3, 1, 3);
    assert_eq!(outer.backing, [4, 8, 12, 5, 10, 15, 6, 12, 18]);
    let wide = Matrix { backing: [1, 0, 2, 0, 1, 3] };
    let v: Matrix<2> = matrix_multiply(&wide, &col, 2, 3, 1);
    assert_eq!(v.backing, [16, 23]);
}

#[test]
fn points() {
    let a = Vec3i::new(1, -2, 3);
    let b = Vec3i::new(10, 20, -30);
    assert_eq!(xyz(&a.add(b)), (11, 18, -27));
    assert_eq!(xyz(&a.sub(b)), (-9, -22, 33));
    assert_eq!(a.man_dist(&b), 9 + 22 + 33);
    assert_eq!(b.man_dist(&a), 64);
    assert_eq!(a.man_dist(&a), 0);
    assert_eq!(Vec3i::new(1105, -1205, 1229).man_dist(&Vec3i::new(-92, -2380, -20)), 3621);
}

#[test]
fn turns() {
    let quarter = Rot::new([0, -1, 0, 1, 0, 0, 0, 0, 1]);
    let p = Vec3i::new(1, 2, 3);
    assert_eq!(xyz(&p.apply_rot(&quarter)), (-2, 1, 3));
    assert_eq!(xyz(&p.apply_rot(&empty_rotation())), (1, 2, 3));
    assert_eq!(xyz(&p.apply_rot(&quarter).apply_rot(&quarter.inverse())), (1, 2, 3));
    assert_eq!(quarter.inverse().0.backing, [0, 1, 0, -1, 0, 0, 0, 0, 1]);
    assert_eq!(quarter.mul(quarter).0.backing, [-1, 0, 0, 0, -1, 0, 0, 0, 1]);
    let tip = Rot::new([0, 0, -1, 0, 1, 0, 1, 0, 0]);
    // the product does the right factor first
    assert_eq!(xyz(&p.apply_rot(&tip.mul(quarter))), xyz(&p.apply_rot(&quarter).apply_rot(&tip)));
}

#[test]
fn twenty_four_turns() {
    let all = generate_all_rotations();
    assert_eq!(all[0].0.backing, empty_rotation().0.backing);
    for (i, r) in all.iter().enumerate() {
        assert_eq!(det(&r.0.backing), 1);
        assert_eq!(r.mul(r.inverse()).0.backing, [1, 0, 0, 0, 1, 0, 0, 0, 1]);
        for row in 0..3 {
            let nonzero = (0..3).filter(|c| r.0.backing[row * 3 + c] != 0).count();
            assert_eq!(nonzero, 1);
        }
        for other in all.iter().skip(i + 1) {
            assert_ne!(r.0.backing, other.0.backing);
        }
    }
}

#[test]
fn turn_and_shift() {
    let quarter = Rot::new([0, -1, 0, 1, 0, 0, 0, 0, 1]);
    let rt = RotAndTrans { rot: quarter, trans: Vec3i::new(10, 20, 30) };
    let p = Vec3i::new(1, 2, 3);
    assert_eq!(xyz(&p.apply_rt(&rt)), (8, 21, 33));
    let inv = rt.invert();
    assert_eq!(inv.rot.0.backing, quarter.inverse().0.backing);
    assert_eq!(xyz(&inv.trans), (20, -10, 30));
    let tip = Rot::new([0, 0, -1, 0, 1, 0, 1, 0, 0]);
    let second = RotAndTrans { rot: tip, trans: Vec3i::new(-5, 0, 7) };
    let both = combine_rt(&rt, &second);
    assert_eq!(xyz(&p.apply_rt(&both)), xyz(&p.apply_rt(&rt).apply_rt(&second)));
}

#[test]
fn coordinates_of_a_line() {
    assert_eq!(line_as_coords(&chars("404,-588,-901")), Some((404, -588, -901)));
    assert_eq!(line_as_coords(&chars("1,2,3\n")), Some((1, 2, 3)));
    assert_eq!(line_as_coords(&chars("--- scanner 0 ---")), None);
    assert_eq!(line_as_coords(&chars("")), None);
    assert_eq!(line_as_coords(&chars("1,2")), None);
    assert_eq!(line_as_coords(&chars("1,2,x")), None);
    assert_eq!(line_as_coords(&chars("1,2,3,4")), None);
}

#[test]
fn reports() {
    let text = "--- scanner 0 ---\n0,2,0\n4,1,0\n0,2,0\n\n--- scanner 1 ---\n-1,-1,5\n\n\n--- scanner 2 ---";
    let lines: Vec<Vec<char>> = text.lines().map(chars).collect();
    let data = read_data(&lines);
    assert_eq!(data.len(), 2);
    assert_eq!(data[0].1, 0);
    assert_eq!(data[1].1, 1);
    let first: Vec<_> = data[0].0.iter().map(xyz).collect();
    assert_eq!(first, vec![(0, 2, 0), (4, 1, 0)]);
    let second: Vec<_> = data[1].0.iter().map(xyz).collect();
    assert_eq!(second, vec![(-1, -1, 5)]);
    assert!(read_data(&vec![]).is_empty());
}

#[test]
fn shift_between_two_views() {
    let socket = scatter(14, 3);
    let plug: Vec<Vec3i> = socket.iter().skip(1).map(|p| p.sub(Vec3i::new(5, -600, 7))).collect();
    let d = try_find_trans(&socket, &plug).unwrap();
    assert_eq!(xyz(&d), (5, -600, 7));
    // eleven points in common are not enough
    let few: Vec<Vec3i> = plug.iter().take(11).copied().collect();
    assert!(try_find_trans(&socket, &few).is_none());
    let twelve: Vec<Vec3i> = plug.iter().take(12).copied().collect();
    assert!(try_find_trans(&socket, &twelve).is_some());
    assert!(try_find_trans(&socket, &vec![]).is_none());
    assert!(try_find_trans(&socket, &scatter(14, 4)).is_none());
}

#[test]
fn turn_and_shift_between_two_views() {
    let all = generate_all_rotations();
    let socket = scatter(13, 5);
    for k in [0usize, 7, 13, 23] {
        let at = Vec3i::new(68, -1246, -43);
        let plug = seen_from(&socket, &all[k], at);
        let rt = try_find_rt(&socket, &plug).unwrap();
        assert_eq!(rt.rot.0.backing, all[k].0.backing);
        assert_eq!(xyz(&rt.trans), (68, -1246, -43));
        for (p, s) in plug.iter().zip(socket.iter()) {
            assert_eq!(xyz(&p.apply_rt(&rt)), xyz(s));
        }
    }
    assert!(try_find_rt(&socket, &scatter(13, 6)).is_none());
}

#[test]
fn placing_a_chunk() {
    let all = generate_all_rotations();
    let field = scatter(12, 7);
    let base = FreeChunk::new(field.clone(), 0).place_origin();
    let at = Vec3i::new(100, 200, -300);
    let seen = seen_from(&field, &all[9], at);
    match FreeChunk::new(seen, 1).attempt_place_by(&base) {
        Ok(p) => {
            assert_eq!(p.2, 1);
            assert_eq!(p.1.rot.0.backing, all[9].0.backing);
            assert_eq!(xyz(&p.1.trans), (100, 200, -300));
        },
        Err(_) => panic!("the chunk should have been placed"),
    }
    match FreeChunk::new(scatter(12, 8), 2).attempt_place_by(&base) {
        Ok(_) => panic!("the chunk should not have been placed"),
        Err(c) => {
            assert_eq!(c.1, 2);
            assert_eq!(c.0.len(), 12);
        },
    }
}

#[test]
fn merging_placed_chunks() {
    let a = FreeChunk::new(vec![Vec3i::new(1, 2, 3), Vec3i::new(4, 5, 6)], 0).place_origin();
    let quarter = Rot::new([0, -1, 0, 1, 0, 0, 0, 0, 1]);
    let b = FreeChunk::new(vec![Vec3i::new(2, 9, 3), Vec3i::new(0, 0, 0)], 1)
        .with_rt(RotAndTrans { rot: quarter, trans: Vec3i::new(10, 0, 0) });
    let mut all: Vec<_> = combine_placed_chunks(&vec![a, b]).iter().map(xyz).collect();
    all.sort();
    // (2, 9, 3) turns to (-9, 2, 3) and shifts to (1, 2, 3), which is there already
    assert_eq!(all, vec![(1, 2, 3), (4, 5, 6), (10, 0, 0)]);
    assert!(combine_placed_chunks(&vec![]).is_empty());
}

#[test]
fn three_scanners_in_a_chain() {
    let all = generate_all_rotations();
    let near_first = scatter(12, 11);
    let near_last = scatter(12, 12);
    let alone = scatter(7, 13);
    let at1 = Vec3i::new(68, -1246, -43);
    let at2 = Vec3i::new(-20, -1133, 1061);
    let mut view0 = near_first.clone();
    view0.extend_from_slice(&alone[0..2]);
    let mut world1 = near_first.clone();
    world1.extend_from_slice(&near_last);
    world1.extend_from_slice(&alone[2..5]);
    let mut world2 = near_last.clone();
    world2.extend_from_slice(&alone[5..7]);
    // the last scanner meets only the middle one, and is reported before it
    let data = vec![
        FreeChunk::new(view0, 0),
        FreeChunk::new(seen_from(&world2, &all[17], at2), 1),
        FreeChunk::new(seen_from(&world1, &all[5], at1), 2),
    ];
    let far = 68 + 1246 + 43;
    assert!(at2.man_dist(&at1) < far && at2.man_dist(&Vec3i::new(0, 0, 0)) > far);
    assert_eq!(p1(&data), Some((12 + 12 + 7, 20 + 1133 + 1061)));
}

#[test]
fn a_scanner_out_of_reach() {
    let data = vec![FreeChunk::new(scatter(12, 21), 0), FreeChunk::new(scatter(12, 22), 1)];
    assert_eq!(p1(&data), None);
}

#[test]
fn one_scanner_alone() {
    let data = vec![FreeChunk::new(scatter(5, 31), 0)];
    assert_eq!(p1(&data), Some((5, 0)));
}

#[test]
fn matrices_that_are_no_turns() {
    let stretch = Rot::new([2, 0, 0, 0, 3, 0, 0, 0, 4]);
    let shear = Rot::new([1, 1, 0, 0, 1, 0, 5, 0, 1]);
    let p = Vec3i::new(1, 2, 3);
    assert_eq!(xyz(&p.apply_rot(&stretch)), (2, 6, 12));
    assert_eq!(xyz(&p.apply_rot(&shear)), (3, 2, 8));
    assert_eq!(stretch.mul(shear).0.backing, [2, 2, 0, 0, 3, 0, 20, 0, 4]);
    assert_eq!(shear.mul(stretch).0.backing, [2, 3, 0, 0, 3, 0, 10, 0, 4]);
    assert_eq!(shear.inverse().0.backing, [1, 0, 5, 1, 1, 0, 0, 0, 1]);
    let first = RotAndTrans { rot: shear, trans: Vec3i::new(10, 20, 30) };
    let second = RotAndTrans { rot: stretch, trans: Vec3i::new(-1, -2, -3) };
    assert_eq!(xyz(&p.apply_rt(&first)), (13, 22, 38));
    let both = combine_rt(&first, &second);
    assert_eq!(both.rot.0.backing, [2, 2, 0, 0, 3, 0, 20, 0, 4]);
    assert_eq!(xyz(&both.trans), (19, 58, 117));
    assert_eq!(xyz(&p.apply_rt(&both)), xyz(&p.apply_rt(&first).apply_rt(&second)));
    // the transpose, and the shift turned by it
    let back = first.invert();
    assert_eq!(back.rot.0.backing, [1, 0, 5, 1, 1, 0, 0, 0, 1]);
    assert_eq!(xyz(&back.trans), (160, 30, 30));
}
