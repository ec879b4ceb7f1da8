use advent::scan::{
    chunk_count, expect_char, map_nonwhite_chunks, take_any_white, take_ignore_white, take_nonwhite,
    take_number, take_white_numbers,
};

fn chars(s: &str) -> Vec<char> {
    s.chars().collect()
}

#[test]
fn take_number_passes_digits_and_yields_nothing() {
    let s = chars("123abc");
    let mut pos = 0;
    assert_eq!(take_number(&s, &mut pos), None);
    assert_eq!(pos, 3);
    assert_eq!(take_number(&s, &mut pos), None);
    assert_eq!(pos, 3);
}

#[test]
fn take_any_white_passes_white_space() {
    let s = chars(" \t\n x ");
    let mut pos = 0;
    take_any_white(&s, &mut pos);
    assert_eq!(pos, 4);
    take_any_white(&s, &mut pos);
    assert_eq!(pos, 4);
}

#[test]
fn take_ignore_white_then_number() {
    let s = chars("  42 7");
    let mut pos = 0;
    assert_eq!(take_ignore_white(&s, &mut pos), None);
    assert_eq!(pos, 4);
}

#[test]
fn take_white_numbers_is_empty() {
    let s = chars(" 1 2 3");
    let mut pos = 0;
    assert_eq!(take_white_numbers(&s, &mut pos), vec![]);
    assert_eq!(pos, 2);
}

#[test]
fn expect_char_moves_only_on_match() {
    let s = chars("ab");
    let mut pos = 0;
    assert_eq!(expect_char(&s, &mut pos, 'b'), Err(()));
    assert_eq!(pos, 0);
    assert_eq!(expect_char(&s, &mut pos, 'a'), Ok(()));
    assert_eq!(pos, 1);
    assert_eq!(expect_char(&s, &mut pos, 'b'), Ok(()));
    assert_eq!(expect_char(&s, &mut pos, 'b'), Err(()));
    assert_eq!(pos, 2);
}

#[test]
fn take_nonwhite_takes_white_space() {
    let s = chars("  ab");
    let mut pos = 0;
    assert_eq!(take_nonwhite(&s, &mut pos), Some(vec![' ', ' ']));
    assert_eq!(pos, 2);
    assert_eq!(take_nonwhite(&s, &mut pos), None);
    assert_eq!(pos, 2);
}

#[test]
fn chunks_between_white_space() {
    let got: Vec<String> =
        map_nonwhite_chunks(&chars("  ab  c\nd ")).iter().map(|c| c.iter().collect()).collect();
    assert_eq!(got, vec!["ab", "c", "d"]);
    assert!(map_nonwhite_chunks(&chars("   ")).is_empty());
    assert!(map_nonwhite_chunks(&chars("")).is_empty());
    assert_eq!(map_nonwhite_chunks(&chars("x")), vec![vec!['x']]);
}

#[test]
fn groups_of_a_fixed_size() {
    let pairs: Vec<[u8; 2]> = chunk_count(&vec![1, 2, 3, 4, 5, 6]);
    assert_eq!(pairs, vec![[1, 2], [3, 4], [5, 6]]);
    let threes: Vec<[char; 3]> = chunk_count(&chars("abcdef"));
    assert_eq!(threes, vec![['a', 'b', 'c'], ['d', 'e', 'f']]);
    let ones: Vec<[i32; 1]> = chunk_count(&vec![7, 8]);
    assert_eq!(ones, vec![[7], [8]]);
    let none: Vec<[i32; 4]> = chunk_count(&vec![]);
    assert!(none.is_empty());
}
