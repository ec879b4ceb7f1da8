use advent::trench::{into_bool_array, number_in_area, read_data, Image};

fn chars(s: &str) -> Vec<char> {
    s.chars().collect()
}

fn lines(text: &str) -> Vec<Vec<char>> {
    text.lines().map(chars).collect()
}

/// A table whose entry `i` is `f(i)`.
fn table(f: impl Fn(usize) -> bool) -> Vec<bool> {
    (0..512).map(f).collect()
}

fn sorted(img: &Image) -> Vec<(i32, i32)> {
    let mut v = img.ls.clone();
    v.sort();
    v
}

const TABLE: &str = "..#.#..#####.#.#.#.###.##.....###.##.#..###.####..#####..#....#..#..##..###..######.###...####..#..#####..##..#.#####...##.#.#..#.##..#.#......#.###.######.###.####...#.##.##..#..#..#####.....#.#....###..#.##......#.....#..#..#..##..#...##.######.####.####.#.#...#.......#..#.#.#...####.##.#......#..#...##.#.##..#...##.#.##..###.#......#.#.......#.#.#.####.###.##...#.....####.#..#..#.##.#....##..#.####....##...##..#...#......#.#.......#.......##..#.#.#.#...##..#...##.#..##..#.#..###..#####........#..####....";

const PICTURE: &str = "#..#.
#....
##..#
..#..
..###";

fn sample() -> (Image, Vec<bool>) {
    let mut all = vec![chars(TABLE), vec![]];
    all.extend(lines(PICTURE));
    read_data(&all).unwrap()
}

#[test]
fn bool_array() {
    assert_eq!(into_bool_array(&chars("#..#x")), vec![true, false, false, true, false]);
    assert!(into_bool_array(&chars("")).is_empty());
}

#[test]
fn read_data_places() {
    let (img, table) = read_data(&lines("#.#\n\n.#\n#.")).unwrap();
    assert_eq!(table, vec![true, false, true]);
    assert!(!img.is_invert);
    assert_eq!(sorted(&img), vec![(0, 1), (1, 0)]);
    assert!(read_data(&lines("#.#")).is_none());
    assert!(read_data(&vec![]).is_none());
    let (img, table) = read_data(&vec![chars("##"), chars("#")]).unwrap();
    assert_eq!(table, vec![true, true]);
    assert_eq!(img.get_count(), 0);
}

#[test]
fn light_list_drops_repeats() {
    let img = Image::from_light_list(&vec![(1, 2), (3, 4), (1, 2), (2, 1)]);
    assert_eq!(img.get_count(), 3);
    assert!(img.read_pixel(1, 2));
    assert!(img.read_pixel(2, 1));
    assert!(!img.read_pixel(0, 0));
    assert_eq!(img.get_blank_id(), 0);
    let dark = Image { ls: vec![(0, 0)], is_invert: true };
    assert!(!dark.read_pixel(0, 0));
    assert!(dark.read_pixel(5, 5));
    assert_eq!(dark.get_blank_id(), 511);
}

#[test]
fn nine_places_spell_a_number() {
    let (img, _) = sample();
    assert_eq!(img.number_in_area((2, 2)), 34);
    assert_eq!(number_in_area(&img.ls, (2, 2)), 34);
    assert_eq!(img.number_in_area((0, 0)), 0b000_010_010);
    assert_eq!(img.number_in_area((-1, -1)), 1);
    assert_eq!(img.number_in_area((5, 5)), 256);
    assert_eq!(img.number_in_area((50, 50)), 0);
    let dark = Image { ls: vec![(0, 0)], is_invert: true };
    assert_eq!(dark.number_in_area((0, 0)), 0b111_101_111);
    assert_eq!(dark.number_in_area((9, 9)), 511);
}

#[test]
fn sample_table_entries() {
    let (_, table) = sample();
    assert_eq!(table.len(), 512);
    assert!(table[34]);
    assert!(!table[0]);
}

#[test]
fn sample_after_fifty_steps() {
    let (mut img, table) = sample();
    img.enhance_count(&table, 50);
    assert_eq!(img.get_count(), 3315);
}

#[test]
fn sample_after_two_steps() {
    let (mut img, table) = sample();
    assert_eq!(img.get_count(), 10);
    img.enhance_count(&table, 2);
    assert_eq!(img.get_count(), 35);
}

#[test]
fn sample_after_one_step() {
    let (img, table) = sample();
    let next = img.enhance(&table);
    let expect = lines(
        ".##.##.
#..#.#.
##.#..#
####..#
.#..##.
..##..#
...#.#.",
    );
    for y in 0..7 {
        for x in 0..7 {
            assert_eq!(next.read_pixel(y - 1, x - 1), expect[y as usize][x as usize] == '#');
        }
    }
    assert_eq!(next.get_count(), 24);
}

#[test]
fn centre_table_keeps_the_image() {
    let keep = table(|i| i & 16 != 0);
    let mut img = Image::from_light_list(&vec![(0, 0), (0, 1), (7, -3)]);
    img.enhance_count(&keep, 3);
    assert!(!img.is_invert);
    assert_eq!(sorted(&img), vec![(0, 0), (0, 1), (7, -3)]);
}

#[test]
fn shifting_table_moves_the_image() {
    // every place takes the light of the place below and to the right of it
    let shift = table(|i| i & 1 != 0);
    let mut img = Image::from_light_list(&vec![(0, 0), (2, 5)]);
    img.enhance_count(&shift, 2);
    assert_eq!(sorted(&img), vec![(-2, -2), (0, 3)]);
}

#[test]
fn background_may_flash() {
    // dark surroundings light up, lit surroundings go dark
    let flash = table(|i| i == 0);
    let mut img = Image::from_light_list(&vec![(0, 0)]);
    let once = img.enhance(&flash);
    assert!(once.is_invert);
    assert!(once.read_pixel(100, 100));
    assert!(!once.read_pixel(0, 0));
    assert!(!once.read_pixel(1, 1));
    assert!(once.read_pixel(2, 2));
    assert_eq!(once.get_blank_id(), 511);
    img.enhance_count(&flash, 2);
    assert!(!img.is_invert);
    // after the second step only the place that saw nothing but dark is lit
    assert!(!img.read_pixel(50, 50));
    assert!(!img.read_pixel(1, 1));
    assert!(img.read_pixel(0, 0));
    assert_eq!(img.get_count(), 1);
}

#[test]
fn no_steps_change_nothing() {
    let (mut img, table) = sample();
    let before = sorted(&img);
    img.enhance_count(&table, 0);
    assert_eq!(sorted(&img), before);
}
