use advent::dirac::{inc_hashmap, p1, p2, parse_start, read_data, DieP1, Game, Player};

fn chars(s: &str) -> Vec<char> {
    s.chars().collect()
}

#[test]
fn die_counts_to_a_hundred_and_starts_over() {
    let mut die = DieP1::new();
    assert_eq!(die.roll(), 1);
    assert_eq!(die.roll(), 2);
    for _ in 0..97 {
        die.roll();
    }
    assert_eq!(die.roll(), 100);
    assert_eq!(die.roll(), 1);
    assert_eq!(die.get_roll_count(), 101);
}

#[test]
fn player_moves_round_the_track() {
    let mut p = Player::new_with_pos(4);
    assert_eq!((p.pos, p.score), (3, 0));
    p.turn(1 + 2 + 3);
    assert_eq!((p.pos, p.score), (9, 10));
    p.turn(7 + 8 + 9);
    assert_eq!((p.pos, p.score), (3, 14));
    assert!(!p.is_winning());
    let done = Player { score: 1000, pos: 0 };
    assert!(done.is_winning());
    let nearly = Player { score: 999, pos: 0 };
    assert!(!nearly.is_winning());
}

#[test]
fn starting_places() {
    assert_eq!(parse_start(&chars("Player 1 starting position: 4")), Some(4));
    assert_eq!(parse_start(&chars("x 10")), Some(10));
    assert_eq!(parse_start(&chars("Player")), None);
    assert_eq!(parse_start(&chars("Player 1 starting position: ")), None);
    assert_eq!(parse_start(&chars("Player 1 starting position: x")), None);
    let lines = vec![
        chars("Player 1 starting position: 4"),
        chars("Player 2 starting position: 8"),
    ];
    assert_eq!(read_data(&lines), Some((4, 8)));
    assert_eq!(read_data(&vec![chars("Player 1 starting position: 4")]), None);
    assert_eq!(read_data(&vec![chars("a 1"), chars("b")]), None);
}

#[test]
fn practice_game() {
    assert_eq!(p1(4, 8), 739785);
}

#[test]
fn practice_game_second_player_wins() {
    // from 1 and 3 the first player scores 7, 10, 1, 10, ... and the second 9, 10, 9, ...
    let a = p1(1, 3);
    let b = p1(3, 1);
    assert!(a > 0 && b > 0);
    assert_ne!(a, b);
}

#[test]
fn counting_universes() {
    let g1 = Game { plays: [(3, 0), (7, 0)], is_p2_turn: false };
    let g2 = Game { plays: [(3, 0), (7, 0)], is_p2_turn: true };
    let mut hm: Vec<(Game, usize)> = Vec::new();
    assert!(inc_hashmap(&mut hm, g1, 3));
    assert!(inc_hashmap(&mut hm, g2, 4));
    assert!(inc_hashmap(&mut hm, g1, 5));
    assert_eq!(hm.len(), 2);
    let count = |hm: &Vec<(Game, usize)>, turn: bool| {
        hm.iter().filter(|(g, _)| g.is_p2_turn == turn).map(|(_, n)| *n).sum::<usize>()
    };
    assert_eq!(count(&hm, false), 8);
    assert_eq!(count(&hm, true), 4);
    assert!(!inc_hashmap(&mut hm, g2, usize::MAX - 3));
    assert_eq!(count(&hm, true), 4);
    assert!(inc_hashmap(&mut hm, g2, usize::MAX - 4));
    assert_eq!(count(&hm, true), usize::MAX);
}

#[test]
fn real_game() {
    assert_eq!(p2(4, 8), Some(444356092776315));
}

/// The universes that the players win, game by game.
fn wins(pos: [u32; 2], score: [u32; 2], turn: usize, memo: &mut Vec<Option<(u64, u64)>>) -> (u64, u64) {
    let key = ((((pos[0] * 10 + pos[1]) * 21 + score[0]) * 21 + score[1]) * 2) as usize + turn;
    if let Some(w) = memo[key] {
        return w;
    }
    let mut total = (0u64, 0u64);
    for a in 1..=3 {
        for b in 1..=3 {
            for c in 1..=3 {
                let mut p = pos;
                let mut s = score;
                p[turn] = (p[turn] + a + b + c) % 10;
                s[turn] += p[turn] + 1;
                if s[turn] >= 21 {
                    if turn == 0 {
                        total.0 += 1;
                    } else {
                        total.1 += 1;
                    }
                } else {
                    let w = wins(p, s, 1 - turn, memo);
                    total.0 += w.0;
                    total.1 += w.1;
                }
            }
        }
    }
    memo[key] = Some(total);
    total
}

#[test]
fn universes_agree_with_counting_game_by_game() {
    for (a, b) in [(4, 8), (1, 1), (10, 10), (3, 7), (9, 2)] {
        let mut memo = vec![None; 10 * 10 * 21 * 21 * 2];
        let w = wins([a - 1, b - 1], [0, 0], 0, &mut memo);
        assert_eq!(p2(a, b), Some(w.0.max(w.1) as usize));
    }
}
