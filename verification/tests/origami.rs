use advent::origami::{apply_fold, arrange, display_map, get_dims, read_data, reflect, Cursor, Fold};

fn lines(text: &str) -> Vec<Vec<char>> {
    text.lines().map(|l| l.chars().collect()).collect()
}

const SAMPLE: &str = "6,10
0,14
9,10
0,3
10,4
4,11
6,0
6,12
4,1
0,13
10,12
3,4
3,0
8,4
1,10
2,14
8,10
9,0

fold along y=7
fold along x=5";

#[test]
fn reflect_values() {
    assert_eq!(reflect(3, 7), 3);
    assert_eq!(reflect(7, 7), 7);
    assert_eq!(reflect(8, 7), 6);
    assert_eq!(reflect(14, 7), 0);
}

#[test]
fn read_data_dots_and_folds() {
    let (dots, folds) = read_data(&lines(SAMPLE)).unwrap();
    assert_eq!(dots.len(), 18);
    assert_eq!(dots[0], (6, 10));
    assert_eq!(folds.len(), 2);
    assert!(matches!(folds[0], Fold::Up(7)));
    assert!(matches!(folds[1], Fold::Left(5)));
}

#[test]
fn read_data_drops_repeated_dots_and_rejects_malformed() {
    let (dots, folds) = read_data(&lines("1,2\n1,2\n3,4")).unwrap();
    assert_eq!(dots, vec![(1, 2), (3, 4)]);
    assert!(folds.is_empty());
    assert!(read_data(&lines("1,x")).is_none());
    assert!(read_data(&lines("1,2\n\nfold along y")).is_none());
    assert!(read_data(&lines("1,2\n\nfold along y=z")).is_none());
}

#[test]
fn sample_folds() {
    let (mut dots, folds) = read_data(&lines(SAMPLE)).unwrap();
    dots = apply_fold(&dots, folds[0]);
    assert_eq!(dots.len(), 17);
    dots = apply_fold(&dots, folds[1]);
    assert_eq!(dots.len(), 16);
    assert_eq!(get_dims(&dots), (5, 5));
    let picture: String = display_map(&dots).iter().collect();
    assert_eq!(picture, "#####\n#...#\n#...#\n#...#\n#####\n");
}

#[test]
fn dims_of_empty_sheet() {
    assert_eq!(get_dims(&vec![]), (1, 1));
    let picture: String = display_map(&vec![]).iter().collect();
    assert_eq!(picture, ".\n");
}

#[test]
fn arrange_orders_by_row_then_column() {
    assert_eq!(arrange(&vec![(2, 1), (0, 0), (1, 1), (5, 0), (0, 0)]), vec![(0, 0), (5, 0), (1, 1), (2, 1)]);
}

#[test]
fn cursor_draws_dots_and_blanks() {
    let mut cur = Cursor::new((3, 2));
    cur.advance_to(Some((1, 0)));
    cur.write_dot();
    cur.advance_to(Some((2, 1)));
    cur.write_dot();
    assert_eq!(cur.pos, None);
    cur.advance_to(None);
    let picture: String = cur.out.iter().collect();
    assert_eq!(picture, ".#.\n..#\n");
}
