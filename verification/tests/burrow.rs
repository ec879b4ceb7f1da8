use advent::burrow::{
    best_score, display_game, get_path_score, get_room_give_idx, get_room_take_idx, is_goal, read_data,
    room_idx_to_off, room_idx_to_pos,
};
use advent::color::{parse_color, Color};
use advent::hallway::{
    find_empty_hall_around, hall_idx_to_pos, left_find_empty_hall, left_search_hall,
    right_find_empty_hall, right_search_hall, search_hall_around,
};

use Color::{Amber as A, Bronze as B, Copper as C, Desert as D};

fn lines(text: &str) -> Vec<Vec<char>> {
    text.lines().map(|l| l.chars().collect()).collect()
}

const HOME: [Option<Color>; 8] =
    [Some(A), Some(B), Some(C), Some(D), Some(A), Some(B), Some(C), Some(D)];

const SAMPLE: &str = "#############
#...........#
###B#C#B#D###
  #A#D#C#A#
  #########";

#[test]
fn kinds() {
    assert_eq!(parse_color('A'), Some(A));
    assert_eq!(parse_color('B'), Some(B));
    assert_eq!(parse_color('C'), Some(C));
    assert_eq!(parse_color('D'), Some(D));
    assert_eq!(parse_color('E'), None);
    assert_eq!(parse_color('#'), None);
    for (i, c) in [A, B, C, D].into_iter().enumerate() {
        assert_eq!(c.get_idx(), i);
        assert_eq!(Color::from_idx(i), c);
        assert_eq!(parse_color(c.get_letter()), Some(c));
    }
    assert_eq!(A.get_cost(), 1);
    assert_eq!(B.get_cost(), 10);
    assert_eq!(C.get_cost(), 100);
    assert_eq!(D.get_cost(), 1000);
}

#[test]
fn columns_and_steps() {
    let halls: Vec<u64> = (0..7).map(hall_idx_to_pos).collect();
    assert_eq!(halls, vec![0, 1, 3, 5, 7, 9, 10]);
    let rooms: Vec<u64> = (0..8).map(room_idx_to_pos).collect();
    assert_eq!(rooms, vec![2, 4, 6, 8, 2, 4, 6, 8]);
    let offs: Vec<u64> = (0..8).map(room_idx_to_off).collect();
    assert_eq!(offs, vec![1, 1, 1, 1, 2, 2, 2, 2]);
    assert_eq!(get_path_score(0, 0), 3);
    assert_eq!(get_path_score(0, 7), 10);
    assert_eq!(get_path_score(6, 4), 10);
    assert_eq!(get_path_score(2, 1), 2);
    assert_eq!(get_path_score(2, 0), 2);
    assert_eq!(get_path_score(3, 6), 3);
}

#[test]
fn searching_the_hallway() {
    let hall = [None, Some(B), None, None, Some(A), None, Some(D)];
    assert_eq!(left_search_hall(&hall, 3, B), Some(1));
    assert_eq!(left_search_hall(&hall, 3, A), None);
    assert_eq!(left_search_hall(&hall, 0, B), None);
    assert_eq!(left_search_hall(&hall, 6, D), Some(6));
    assert_eq!(left_search_hall(&hall, 5, D), None);
    assert_eq!(right_search_hall(&hall, 2, A), Some(4));
    assert_eq!(right_search_hall(&hall, 2, D), None);
    assert_eq!(right_search_hall(&hall, 5, D), Some(6));
    assert_eq!(right_search_hall(&hall, 7, D), None);
    // room 1 has its door between spots 2 and 3
    assert_eq!(search_hall_around(&hall, 1), Some(1));
    assert_eq!(search_hall_around(&hall, 0), Some(4));
    assert_eq!(search_hall_around(&hall, 3), Some(6));
    assert_eq!(search_hall_around(&hall, 2), None);
}

#[test]
fn free_spots() {
    let hall = [None, Some(B), None, None, Some(A), None, None];
    assert_eq!(left_find_empty_hall(&hall, 3), vec![3, 2]);
    assert_eq!(left_find_empty_hall(&hall, 1), Vec::<usize>::new());
    assert_eq!(left_find_empty_hall(&hall, 0), vec![0]);
    assert_eq!(right_find_empty_hall(&hall, 2), vec![2, 3]);
    assert_eq!(right_find_empty_hall(&hall, 5), vec![5, 6]);
    assert_eq!(right_find_empty_hall(&hall, 4), Vec::<usize>::new());
    assert_eq!(right_find_empty_hall(&hall, 7), Vec::<usize>::new());
    assert_eq!(find_empty_hall_around(&hall, 1), vec![2, 3]);
    assert_eq!(find_empty_hall_around(&hall, 0), vec![2, 3]);
    assert_eq!(find_empty_hall_around(&hall, 3), vec![5, 6]);
    let free = [None; 7];
    assert_eq!(find_empty_hall_around(&free, 2), vec![3, 2, 1, 0, 4, 5, 6]);
}

#[test]
fn slots_to_enter_and_to_leave() {
    let rooms = [None, None, Some(C), Some(A), None, Some(B), Some(C), Some(D)];
    assert_eq!(get_room_take_idx(&rooms, 0), Some(4));
    assert_eq!(get_room_take_idx(&rooms, 1), Some(1));
    assert_eq!(get_room_take_idx(&rooms, 2), None);
    assert_eq!(get_room_take_idx(&rooms, 3), None);
    assert_eq!(get_room_give_idx(&rooms, 0), None);
    assert_eq!(get_room_give_idx(&rooms, 1), None);
    assert_eq!(get_room_give_idx(&rooms, 2), None);
    assert_eq!(get_room_give_idx(&rooms, 3), Some(3));
    let rooms = [None, Some(B), None, None, Some(D), Some(A), None, None];
    assert_eq!(get_room_take_idx(&rooms, 0), None);
    assert_eq!(get_room_give_idx(&rooms, 0), Some(4));
    assert_eq!(get_room_give_idx(&rooms, 1), Some(1));
}

#[test]
fn goal() {
    assert!(is_goal(&HOME));
    let mut rooms = HOME;
    rooms.swap(0, 1);
    assert!(!is_goal(&rooms));
    rooms = HOME;
    rooms[7] = None;
    assert!(!is_goal(&rooms));
}

#[test]
fn reading_the_diagram() {
    let (hall, rooms) = read_data(&lines(SAMPLE)).unwrap();
    assert_eq!(hall, [None; 7]);
    assert_eq!(rooms, [Some(B), Some(C), Some(B), Some(D), Some(A), Some(D), Some(C), Some(A)]);
    assert!(read_data(&lines("#############\n#...........#\n###B#C#B#D###")).is_none());
    assert!(read_data(&lines("#\n#\n###B#C#B#D#A#\n  #A#D#C#A#\n")).is_none());
    let (_, rooms) = read_data(&lines("#\n#\n###B#C#\n  #A#")).unwrap();
    assert_eq!(rooms, [Some(B), Some(C), Some(A), None, None, None, None, None]);
}

#[test]
fn nothing_to_do() {
    assert_eq!(best_score([None; 7], HOME), Some(0));
}

#[test]
fn one_step_home() {
    let mut rooms = HOME;
    rooms[0] = None;
    let mut hall = [None; 7];
    hall[1] = Some(A);
    assert_eq!(best_score(hall, rooms), Some(2));
    let mut hall = [None; 7];
    hall[6] = Some(A);
    assert_eq!(best_score(hall, rooms), Some(9));
}

#[test]
fn two_swapped() {
    // A and B stand in each other's upper slot: one of them has to step
    // aside, which costs least when A walks two steps further
    let mut rooms = HOME;
    rooms.swap(0, 1);
    assert_eq!(best_score([None; 7], rooms), Some(46));
}

#[test]
fn no_way_home() {
    // the D in spot 2 and the A in spot 3 stand in each other's way
    let mut rooms = HOME;
    rooms[0] = None;
    rooms[4] = None;
    rooms[3] = None;
    let mut hall = [None; 7];
    hall[2] = Some(D);
    hall[3] = Some(A);
    hall[6] = Some(A);
    assert_eq!(best_score(hall, rooms), None);
}

#[test]
fn sample_burrow() {
    let (hall, rooms) = read_data(&lines(SAMPLE)).unwrap();
    assert_eq!(best_score(hall, rooms), Some(12521));
}

#[test]
fn drawing_the_burrow() {
    let (hall, rooms) = read_data(&lines(SAMPLE)).unwrap();
    let text: Vec<String> = display_game(&hall, &rooms).into_iter().map(|l| l.into_iter().collect()).collect();
    let expect: Vec<&str> = SAMPLE.lines().collect();
    assert_eq!(text, expect);
    let hall = [Some(A), None, Some(B), None, None, Some(C), Some(D)];
    let mut rooms = HOME;
    rooms[2] = None;
    rooms[5] = None;
    let text: Vec<String> = display_game(&hall, &rooms).into_iter().map(|l| l.into_iter().collect()).collect();
    assert_eq!(
        text,
        vec!["#############", "#A..B.....CD#", "###A#B#.#D###", "  #A#.#C#D#", "  #########"]
    );
}
