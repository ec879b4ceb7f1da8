use advent::color::Color;
use advent::deep_burrow::{
    best_score, get_path_score, get_room_give_idx, get_room_take_idx, p2_alter_rooms,
    room_idx_to_off, room_idx_to_pos, Game, World,
};

use Color::{Amber as A, Bronze as B, Copper as C, Desert as D};

const HOME: [Option<Color>; 16] = [
    Some(A), Some(B), Some(C), Some(D), Some(A), Some(B), Some(C), Some(D),
    Some(A), Some(B), Some(C), Some(D), Some(A), Some(B), Some(C), Some(D),
];

fn game(hall: [Option<Color>; 7], rooms: [Option<Color>; 16]) -> Game {
    Game { hall, rooms, score: 0, moves: 0 }
}

fn base_five(g: &Game) -> u64 {
    g.hall.iter().chain(g.rooms.iter()).fold(0, |acc, c| {
        acc * 5
            + match c {
                Some(A) => 0,
                Some(B) => 1,
                Some(C) => 2,
                Some(D) => 3,
                None => 4,
            }
    })
}

#[test]
fn deep_columns_and_steps() {
    let rooms: Vec<u64> = (0..16).map(room_idx_to_pos).collect();
    assert_eq!(rooms, vec![2, 4, 6, 8, 2, 4, 6, 8, 2, 4, 6, 8, 2, 4, 6, 8]);
    let offs: Vec<u64> = (0..16).map(room_idx_to_off).collect();
    assert_eq!(offs, vec![1, 1, 1, 1, 2, 2, 2, 2, 3, 3, 3, 3, 4, 4, 4, 4]);
    assert_eq!(get_path_score(0, 12), 6);
    assert_eq!(get_path_score(6, 12), 12);
    assert_eq!(get_path_score(3, 2), 2);
    assert_eq!(get_path_score(3, 9), 4);
}

#[test]
fn unfolding_the_diagram() {
    let rooms = [Some(B), Some(C), Some(B), Some(D), Some(A), Some(D), Some(C), Some(A)];
    assert_eq!(
        p2_alter_rooms(rooms),
        [
            Some(B), Some(C), Some(B), Some(D), Some(D), Some(C), Some(B), Some(A),
            Some(D), Some(B), Some(A), Some(C), Some(A), Some(D), Some(C), Some(A),
        ]
    );
}

#[test]
fn deep_slots_to_enter_and_to_leave() {
    let mut rooms = HOME;
    rooms[0] = None;
    rooms[4] = None;
    rooms[1] = None;
    rooms[5] = Some(C);
    rooms[2] = Some(D);
    for r in [3, 7, 11, 15] {
        rooms[r] = None;
    }
    assert_eq!(get_room_take_idx(&rooms, 0), Some(4));
    assert_eq!(get_room_take_idx(&rooms, 1), None);
    assert_eq!(get_room_take_idx(&rooms, 2), None);
    assert_eq!(get_room_take_idx(&rooms, 3), Some(15));
    assert_eq!(get_room_give_idx(&rooms, 0), None);
    assert_eq!(get_room_give_idx(&rooms, 1), Some(5));
    assert_eq!(get_room_give_idx(&rooms, 2), Some(2));
    assert_eq!(get_room_give_idx(&rooms, 3), None);
    let g = game([None; 7], rooms);
    assert_eq!(g.get_take_to_idx(0), Some(4));
    assert_eq!(g.get_take_to_idx(1), None);
    assert_eq!(g.get_give_from_idx(1), Some(5));
    assert_eq!(g.get_give_from_idx(3), None);
    // a stranger at the bottom makes the whole pile leave, top first
    let mut rooms = HOME;
    rooms[12] = Some(B);
    assert_eq!(get_room_give_idx(&rooms, 0), Some(0));
    assert_eq!(get_room_take_idx(&rooms, 0), None);
    rooms[0] = None;
    rooms[4] = None;
    assert_eq!(get_room_give_idx(&rooms, 0), Some(8));
    assert_eq!(get_room_take_idx(&rooms, 0), None);
}

#[test]
fn identifiers() {
    assert_eq!(game([None; 7], [None; 16]).unique_id(), 11920928955078124);
    let g = game([Some(D), None, None, None, None, None, Some(B)], HOME);
    assert_eq!(g.unique_id(), base_five(&g));
    let mut h = g;
    h.score = 77;
    h.moves = 3;
    assert_eq!(h.unique_id(), g.unique_id());
    h.rooms[15] = Some(A);
    assert_eq!(h.unique_id(), g.unique_id() - 3);
    h.hall[0] = Some(A);
    assert_eq!(h.unique_id(), base_five(&h));
}

#[test]
fn winning() {
    assert!(game([None; 7], HOME).is_winning());
    let mut rooms = HOME;
    rooms[15] = None;
    assert!(!game([None; 7], rooms).is_winning());
    rooms[15] = Some(A);
    assert!(!game([None; 7], rooms).is_winning());
    assert!(!game([None; 7], HOME).has_room_jam());
}

#[test]
fn free_way_between_doors() {
    let g = game([None, None, Some(A), None, None, None, None], HOME);
    assert!(!g.is_path_between_rooms(0, 1));
    assert!(g.is_path_between_rooms(1, 2));
    assert!(g.is_path_between_rooms(1, 3));
    assert!(!g.is_path_between_rooms(0, 3));
    let g = game([Some(A), Some(A), None, None, None, Some(A), Some(A)], HOME);
    assert!(g.is_path_between_rooms(0, 3));
    assert_eq!(Game::room_path_cost(0, 1), 4);
    assert_eq!(Game::room_path_cost(0, 13), 7);
    assert_eq!(Game::room_path_cost(12, 15), 14);
    assert_eq!(Game::room_path_cost(4, 0), 3);
}

#[test]
fn moves() {
    let mut rooms = HOME;
    rooms[0] = None;
    let mut hall = [None; 7];
    hall[6] = Some(A);
    let g = game(hall, rooms).with_swap_hr(6, 0, A);
    assert_eq!(g.hall, [None; 7]);
    assert_eq!(g.rooms, HOME);
    assert_eq!((g.score, g.moves), (9, 1));
    let back = g.with_swap_hr(2, 3, D);
    assert_eq!(back.hall[2], Some(D));
    assert_eq!(back.rooms[3], None);
    assert_eq!((back.score, back.moves), (9 + 6000, 2));
    let mut rooms = HOME;
    rooms[0] = Some(C);
    rooms[2] = None;
    let g = game([None; 7], rooms).with_swap_rr(2, 0, C);
    assert_eq!(g.rooms[0], None);
    assert_eq!(g.rooms[2], Some(C));
    assert_eq!((g.score, g.moves), (600, 1));
}

#[test]
fn world_keeps_each_position_once() {
    let g = game([None; 7], HOME);
    let mut w = World::new();
    assert_eq!(w.min_score, u64::MAX);
    w.add_game(g);
    w.add_game(g);
    assert_eq!(w.games.len(), 1);
    let mut later = g;
    later.score = 5;
    w.add_game(later);
    assert_eq!(w.games.len(), 2);
    assert_eq!(w.run(), 0);
    assert_eq!(World::new().run(), u64::MAX);
    assert_eq!(World::new().with_game(later).run(), 5);
}

#[test]
fn reproduce_hands_in_the_next_positions() {
    // nothing can enter a room, so the top of each room with a stranger
    // in it leaves for every free spot
    let rooms = p2_alter_rooms([Some(B), Some(C), Some(B), Some(D), Some(A), Some(D), Some(C), Some(A)]);
    let mut w = World::new();
    game([None; 7], rooms).reproduce(&mut w);
    assert_eq!(w.games.len(), 28);
    assert_eq!(w.min_score, u64::MAX);
    let mut w = World::new();
    let mut done = game([None; 7], HOME);
    done.score = 123;
    done.reproduce(&mut w);
    assert_eq!(w.games.len(), 0);
    assert_eq!(w.min_score, 123);
}

#[test]
fn deep_nothing_to_do() {
    assert_eq!(best_score([None; 7], HOME), 0);
}

#[test]
fn deep_one_step_home() {
    let mut rooms = HOME;
    rooms[0] = None;
    rooms[4] = None;
    let mut hall = [None; 7];
    hall[0] = Some(A);
    hall[6] = Some(A);
    assert_eq!(best_score(hall, rooms), 4 + 9);
}

#[test]
fn deep_two_swapped() {
    let mut rooms = HOME;
    rooms.swap(0, 1);
    assert_eq!(best_score([None; 7], rooms), 46);
}

#[test]
fn deep_no_way_home() {
    let mut rooms = HOME;
    rooms[0] = None;
    rooms[3] = None;
    let mut hall = [None; 7];
    hall[2] = Some(D);
    hall[3] = Some(A);
    assert_eq!(best_score(hall, rooms), u64::MAX);
}

#[test]
fn deep_sample_burrow() {
    let rooms = p2_alter_rooms([Some(B), Some(C), Some(B), Some(D), Some(A), Some(D), Some(C), Some(A)]);
    assert_eq!(best_score([None; 7], rooms), 44169);
}
