use crate::dirac::{
    after_roll, find_game, inc_spec, lemma_find_game, lemma_inc_running, outcomes,
    play_game_spec, play_out, roll_spec, round_spec, running, score_after, start_games, Game,
    Multiverse,
};
use vstd::prelude::*;

verus! {

/// Whether the game is still running: neither player has 21 points.
pub open spec fn open_game(g: Game) -> bool {
    g.plays[0].1 < 21 && g.plays[1].1 < 21
}

/// The points still to be made before both players have 21.
pub open spec fn points_left(g: Game) -> nat {
    if open_game(g) {
        (42 - g.plays[0].1 - g.plays[1].1) as nat
    } else {
        0
    }
}

/// The numbers of universes in which the first and the second player win
/// a game that is still running: every turn splits a universe into one
/// for each way in which three throws of the die can fall.
pub open spec fn wins_from(g: Game) -> (int, int)
    decreases points_left(g), 8int,
{
    if open_game(g) {
        wins_over(g, 0)
    } else {
        (0, 0)
    }
}

/// The numbers of universes in which the players win when the turn of
/// `g` brings one of the totals from the `k`-th on.
pub open spec fn wins_over(g: Game, k: int) -> (int, int)
    decreases points_left(g), 7 - k,
{
    if k < 0 || k >= 7 || !open_game(g) {
        (0, 0)
    } else {
        let roll = outcomes()[k].0;
        let ways = outcomes()[k].1 as int;
        let rest = wins_over(g, k + 1);
        if score_after(g, roll) >= 21 {
            if g.is_p2_turn {
                (rest.0, rest.1 + ways)
            } else {
                (rest.0 + ways, rest.1)
            }
        } else {
            let next = wins_from(after_roll(g, roll));
            (rest.0 + ways * next.0, rest.1 + ways * next.1)
        }
    }
}

/// The numbers of universes that the players win from the games of the
/// list, from the `i`-th on, each counted as often as the list says.
pub open spec fn worth(games: Seq<(Game, usize)>, i: int) -> (int, int)
    decreases games.len() - i,
{
    if i < 0 || i >= games.len() {
        (0, 0)
    } else {
        let rest = worth(games, i + 1);
        let here = wins_from(games[i].0);
        (rest.0 + games[i].1 * here.0, rest.1 + games[i].1 * here.1)
    }
}

/// The numbers of universes that the players have won and will win.
pub open spec fn value_of(m: Multiverse) -> (int, int) {
    (m.wins.0 + worth(m.games, 0).0, m.wins.1 + worth(m.games, 0).1)
}

pub proof fn lemma_wins_over_nonneg(g: Game, k: int)
    ensures
        0 <= wins_over(g, k).0,
        0 <= wins_over(g, k).1,
    decreases points_left(g), 7 - k,
{
    if open_game(g) && 0 <= k < 7 {
        lemma_wins_over_nonneg(g, k + 1);
        let roll = outcomes()[k].0;
        let ways = outcomes()[k].1 as int;
        if score_after(g, roll) < 21 {
            let n = after_roll(g, roll);
            lemma_wins_over_nonneg(n, 0);
            let w = wins_from(n);
            assert(ways * w.0 >= 0 && ways * w.1 >= 0) by (nonlinear_arith)
                requires
                    ways >= 0,
                    w.0 >= 0,
                    w.1 >= 0,
            ;
        }
    }
}

pub proof fn lemma_worth_push(games: Seq<(Game, usize)>, x: (Game, usize), i: int)
    requires
        0 <= i <= games.len(),
    ensures
        worth(games.push(x), i).0 == worth(games, i).0 + x.1 * wins_from(x.0).0,
        worth(games.push(x), i).1 == worth(games, i).1 + x.1 * wins_from(x.0).1,
    decreases games.len() - i,
{
    let all = games.push(x);
    if i < games.len() {
        lemma_worth_push(games, x, i + 1);
        assert(all[i] == games[i]);
    } else {
        assert(all[i] == x);
        assert(worth(all, i + 1) == (0int, 0int));
        assert(worth(games, i) == (0int, 0int));
    }
}

pub proof fn lemma_worth_update(games: Seq<(Game, usize)>, at: int, n: usize, i: int)
    requires
        0 <= i <= games.len(),
        0 <= at < games.len(),
    ensures
        worth(games.update(at, (games[at].0, n)), i).0 == worth(games, i).0 + (if i <= at {
            (n - games[at].1) * wins_from(games[at].0).0
        } else {
            0
        }),
        worth(games.update(at, (games[at].0, n)), i).1 == worth(games, i).1 + (if i <= at {
            (n - games[at].1) * wins_from(games[at].0).1
        } else {
            0
        }),
    decreases games.len() - i,
{
    let all = games.update(at, (games[at].0, n));
    if i < games.len() {
        lemma_worth_update(games, at, n, i + 1);
        let w = wins_from(games[at].0);
        let old = games[at].1 as int;
        if i == at {
            assert(n * w.0 == old * w.0 + (n - old) * w.0 && n * w.1 == old * w.1 + (n - old)
                * w.1) by (nonlinear_arith);
        } else {
            assert(all[i] == games[i]);
        }
    }
}

/// Counting `n` more universes for a game adds what the game is worth
/// `n` times.
pub proof fn lemma_inc_worth(games: Seq<(Game, usize)>, k: Game, n: usize)
    requires
        inc_spec(games, k, n) is Some,
    ensures
        worth(inc_spec(games, k, n).unwrap(), 0).0 == worth(games, 0).0 + n * wins_from(k).0,
        worth(inc_spec(games, k, n).unwrap(), 0).1 == worth(games, 0).1 + n * wins_from(k).1,
{
    let i = find_game(games, k, 0);
    lemma_find_game(games, k, 0);
    if i < games.len() {
        lemma_worth_update(games, i, (games[i].1 + n) as usize, 0);
    } else {
        lemma_worth_push(games, (k, n), 0);
    }
}

/// What one total of the die adds for the player who wins by it, or for
/// both by the game that goes on.
pub open spec fn share(g: Game, roll: u32) -> (int, int) {
    if score_after(g, roll) >= 21 {
        if g.is_p2_turn {
            (0, 1)
        } else {
            (1, 0)
        }
    } else {
        wins_from(after_roll(g, roll))
    }
}

pub proof fn lemma_roll(m: Multiverse, g: Game, cnt: usize, roll: u32)
    requires
        roll_spec(m, g, cnt, roll) is Some,
    ensures
        value_of(roll_spec(m, g, cnt, roll).unwrap()).0 == value_of(m).0 + cnt * share(g, roll).0,
        value_of(roll_spec(m, g, cnt, roll).unwrap()).1 == value_of(m).1 + cnt * share(g, roll).1,
{
    let m2 = roll_spec(m, g, cnt, roll).unwrap();
    let s = share(g, roll);
    if score_after(g, roll) < 21 {
        lemma_inc_worth(m.games, after_roll(g, roll), cnt);
    } else if g.is_p2_turn {
        assert(m2.games == m.games && m2.wins.0 == m.wins.0 && m2.wins.1 == m.wins.1 + cnt);
        assert(cnt * s.0 == 0 && cnt * s.1 == cnt) by (nonlinear_arith)
            requires
                s.0 == 0,
                s.1 == 1,
        ;
    } else {
        assert(m2.games == m.games && m2.wins.1 == m.wins.1 && m2.wins.0 == m.wins.0 + cnt);
        assert(cnt * s.1 == 0 && cnt * s.0 == cnt) by (nonlinear_arith)
            requires
                s.1 == 0,
                s.0 == 1,
        ;
    }
}

/// A turn of `cnt` universes of a game adds what the game is worth `cnt`
/// times.
pub proof fn lemma_play_game(m: Multiverse, g: Game, cnt: usize, k: int)
    requires
        open_game(g),
        0 <= k <= 7,
        play_game_spec(m, g, cnt, k) is Some,
    ensures
        value_of(play_game_spec(m, g, cnt, k).unwrap()).0 == value_of(m).0 + cnt * wins_over(
            g,
            k,
        ).0,
        value_of(play_game_spec(m, g, cnt, k).unwrap()).1 == value_of(m).1 + cnt * wins_over(
            g,
            k,
        ).1,
    decreases 7 - k,
{
    if k < 7 {
        let roll = outcomes()[k].0;
        let ways = outcomes()[k].1 as int;
        let m2 = roll_spec(m, g, (cnt * ways) as usize, roll).unwrap();
        lemma_roll(m, g, (cnt * ways) as usize, roll);
        lemma_play_game(m2, g, cnt, k + 1);
        let s = share(g, roll);
        let rest = wins_over(g, k + 1);
        assert(cnt * ways <= usize::MAX);
        assert((cnt * ways) * s.0 + cnt * rest.0 == cnt * (rest.0 + ways * s.0) && (cnt * ways)
            * s.1 + cnt * rest.1 == cnt * (rest.1 + ways * s.1)) by (nonlinear_arith);
        assert(wins_over(g, k).0 == rest.0 + ways * s.0 && wins_over(g, k).1 == rest.1 + ways
            * s.1) by {
            if score_after(g, roll) >= 21 {
                assert(ways * s.0 == (if g.is_p2_turn {
                    0
                } else {
                    ways
                }) && ways * s.1 == (if g.is_p2_turn {
                    ways
                } else {
                    0
                })) by (nonlinear_arith)
                    requires
                        s == (if g.is_p2_turn {
                            (0int, 1int)
                        } else {
                            (1int, 0int)
                        }),
                ;
            }
        }
    }
}

/// A turn of every game of a list adds what the list is worth.
pub proof fn lemma_round(m: Multiverse, old_games: Seq<(Game, usize)>, i: int, round: int)
    requires
        0 <= i <= old_games.len(),
        running(old_games, round),
        round_spec(m, old_games, i) is Some,
    ensures
        value_of(round_spec(m, old_games, i).unwrap()).0 == value_of(m).0 + worth(old_games, i).0,
        value_of(round_spec(m, old_games, i).unwrap()).1 == value_of(m).1 + worth(old_games, i).1,
    decreases old_games.len() - i,
{
    if i < old_games.len() {
        let g = old_games[i].0;
        assert(open_game(g));
        lemma_play_game(m, g, old_games[i].1, 0);
        let m2 = play_game_spec(m, g, old_games[i].1, 0).unwrap();
        lemma_round(m2, old_games, i + 1, round);
    }
}

/// Whether a game can be played on: it is still running, the places are
/// small, and the scores add up to at least `round`.
pub open spec fn playable(g: Game, round: int) -> bool {
    g.plays[0].0 <= u32::MAX - 9 && g.plays[1].0 <= u32::MAX - 9 && g.plays[0].1 < 21
        && g.plays[1].1 < 21 && g.plays[0].1 + g.plays[1].1 >= round
}

pub proof fn lemma_play_game_running(m: Multiverse, g: Game, cnt: usize, k: int, round: int)
    requires
        playable(g, round),
        0 <= k <= 7,
        running(m.games, round + 1),
        play_game_spec(m, g, cnt, k) is Some,
    ensures
        running(play_game_spec(m, g, cnt, k).unwrap().games, round + 1),
    decreases 7 - k,
{
    if k < 7 {
        let roll = outcomes()[k].0;
        let ways = outcomes()[k].1 as int;
        let n = (cnt * ways) as usize;
        let m2 = roll_spec(m, g, n, roll).unwrap();
        if score_after(g, roll) < 21 {
            lemma_inc_running(m.games, after_roll(g, roll), n, round + 1);
        }
        lemma_play_game_running(m2, g, cnt, k + 1, round);
    }
}

pub proof fn lemma_round_running(m: Multiverse, old_games: Seq<(Game, usize)>, i: int, round: int)
    requires
        0 <= i <= old_games.len(),
        running(old_games, round),
        running(m.games, round + 1),
        round_spec(m, old_games, i) is Some,
    ensures
        running(round_spec(m, old_games, i).unwrap().games, round + 1),
    decreases old_games.len() - i,
{
    if i < old_games.len() {
        let g = old_games[i].0;
        assert(playable(g, round));
        lemma_play_game_running(m, g, old_games[i].1, 0, round);
        let m2 = play_game_spec(m, g, old_games[i].1, 0).unwrap();
        lemma_round_running(m2, old_games, i + 1, round);
    }
}

/// Playing the games of a list to the end gives each player the
/// universes won before and what the list is worth.
pub proof fn lemma_play_out(games: Seq<(Game, usize)>, wins: (usize, usize), round: int)
    requires
        0 <= round,
        running(games, round),
        play_out(games, wins, round) is Some,
    ensures
        play_out(games, wins, round).unwrap().0 == wins.0 + worth(games, 0).0,
        play_out(games, wins, round).unwrap().1 == wins.1 + worth(games, 0).1,
    decreases 42 - round,
{
    if games.len() > 0 {
        let m0 = Multiverse { games: seq![], wins };
        let m = round_spec(m0, games, 0).unwrap();
        assert(worth(m0.games, 0) == (0int, 0int));
        lemma_round(m0, games, 0, round);
        lemma_round_running(m0, games, 0, round);
        lemma_play_out(m.games, m.wins, round + 1);
    }
}

/// The numbers of universes in which the first and the second player win
/// when they start from the given places, counted from 1.
pub open spec fn universes_won(player_1: u32, player_2: u32) -> (int, int) {
    wins_from(Game { plays: [((player_1 - 1) as u32, 0), ((player_2 - 1) as u32, 0)], is_p2_turn: false })
}

/// Playing from the start gives each player the universes that they
/// win.
pub proof fn lemma_play_from_start(player_1: u32, player_2: u32)
    requires
        1 <= player_1 <= u32::MAX - 8,
        1 <= player_2 <= u32::MAX - 8,
        play_out(start_games(player_1, player_2), (0, 0), 0) is Some,
    ensures
        play_out(start_games(player_1, player_2), (0, 0), 0).unwrap().0 == universes_won(
            player_1,
            player_2,
        ).0,
        play_out(start_games(player_1, player_2), (0, 0), 0).unwrap().1 == universes_won(
            player_1,
            player_2,
        ).1,
{
    let games = start_games(player_1, player_2);
    let g = games[0].0;
    assert(playable(g, 0));
    assert(running(games, 0));
    lemma_play_out(games, (0, 0), 0);
    assert(worth(games, 1) == (0int, 0int));
    let w = wins_from(g);
    let n = games[0].1 as int;
    assert(n * w.0 == w.0 && n * w.1 == w.1) by (nonlinear_arith)
        requires
            n == 1,
    ;
}

/// The universes of both players together.
pub open spec fn both(w: (int, int)) -> int {
    w.0 + w.1
}

/// Every game that is still running ends in some universe.
pub proof fn lemma_someone_wins(g: Game, k: int)
    requires
        open_game(g),
        0 <= k < 7,
    ensures
        both(wins_over(g, k)) == outcomes()[k].1 * both(share(g, outcomes()[k].0)) + both(
            wins_over(g, k + 1),
        ),
        both(share(g, outcomes()[k].0)) >= 1,
        both(wins_over(g, k)) >= outcomes()[k].1,
    decreases points_left(g), 7 - k,
{
    let roll = outcomes()[k].0;
    let ways = outcomes()[k].1 as int;
    lemma_wins_over_nonneg(g, k + 1);
    let s = share(g, roll);
    if score_after(g, roll) < 21 {
        let n = after_roll(g, roll);
        lemma_someone_wins(n, 0);
    }
    assert(both(s) >= 1);
    assert(ways * s.0 + ways * s.1 == ways * both(s) && ways * both(s) >= ways) by (nonlinear_arith)
        requires
            ways >= 1,
            both(s) >= 1,
            both(s) == s.0 + s.1,
    ;
    if score_after(g, roll) >= 21 {
        assert(ways * s.0 == (if g.is_p2_turn {
            0
        } else {
            ways
        }) && ways * s.1 == (if g.is_p2_turn {
            ways
        } else {
            0
        })) by (nonlinear_arith)
            requires
                s == (if g.is_p2_turn {
                    (0int, 1int)
                } else {
                    (1int, 0int)
                }),
        ;
    }
}

pub proof fn lemma_someone_wins_first(g: Game)
    requires
        open_game(g),
    ensures
        both(wins_from(g)) >= 1,
{
    lemma_someone_wins(g, 0);
}

/// A list of running games is worth at least the universes of each of
/// its games.
pub proof fn lemma_worth_covers(games: Seq<(Game, usize)>, i: int, at: int, round: int)
    requires
        0 <= i <= at < games.len(),
        running(games, round),
    ensures
        both(worth(games, i)) >= games[at].1,
        worth(games, i).0 >= 0,
        worth(games, i).1 >= 0,
    decreases games.len() - i,
{
    lemma_worth_nonneg(games, i + 1);
    let g = games[i].0;
    let n = games[i].1 as int;
    let w = wins_from(g);
    assert(open_game(g));
    lemma_wins_over_nonneg(g, 0);
    lemma_someone_wins_first(g);
    assert(n * w.0 >= 0 && n * w.1 >= 0 && n * w.0 + n * w.1 >= n) by (nonlinear_arith)
        requires
            n >= 0,
            w.0 >= 0,
            w.1 >= 0,
            w.0 + w.1 >= 1,
    ;
    if i < at {
        lemma_worth_covers(games, i + 1, at, round);
    }
}

pub proof fn lemma_worth_nonneg(games: Seq<(Game, usize)>, i: int)
    ensures
        worth(games, i).0 >= 0,
        worth(games, i).1 >= 0,
    decreases games.len() - i,
{
    if 0 <= i < games.len() {
        lemma_worth_nonneg(games, i + 1);
        let n = games[i].1 as int;
        let w = wins_from(games[i].0);
        if open_game(games[i].0) {
            lemma_wins_over_nonneg(games[i].0, 0);
        }
        assert(n * w.0 >= 0 && n * w.1 >= 0) by (nonlinear_arith)
            requires
                n >= 0,
                w.0 >= 0,
                w.1 >= 0,
        ;
    }
}

/// Where a count leaves the range of `usize` at one total of the die,
/// the universes are too many to count.
pub proof fn lemma_roll_fails(m: Multiverse, g: Game, cnt: usize, roll: u32, round: int)
    requires
        playable(g, round),
        3 <= roll <= 9,
        running(m.games, round + 1),
        roll_spec(m, g, cnt, roll) is None,
    ensures
        both(value_of(m)) + cnt * both(share(g, roll)) > usize::MAX,
{
    lemma_worth_nonneg(m.games, 0);
    let s = share(g, roll);
    if score_after(g, roll) >= 21 {
        assert(cnt * both(s) == cnt) by (nonlinear_arith)
            requires
                both(s) == 1,
        ;
    } else {
        let k = after_roll(g, roll);
        let i = find_game(m.games, k, 0);
        lemma_find_game(m.games, k, 0);
        lemma_worth_covers(m.games, 0, i, round + 1);
        assert(open_game(k));
        lemma_someone_wins_first(k);
        assert(cnt * both(s) >= cnt) by (nonlinear_arith)
            requires
                both(s) >= 1,
                cnt >= 0,
        ;
    }
}

pub proof fn lemma_play_game_fails(m: Multiverse, g: Game, cnt: usize, k: int, round: int)
    requires
        playable(g, round),
        0 <= k <= 7,
        running(m.games, round + 1),
        play_game_spec(m, g, cnt, k) is None,
    ensures
        both(value_of(m)) + cnt * both(wins_over(g, k)) > usize::MAX,
    decreases 7 - k,
{
    if k < 7 {
        let roll = outcomes()[k].0;
        let ways = outcomes()[k].1 as int;
        let s = share(g, roll);
        let rest = wins_over(g, k + 1);
        lemma_worth_nonneg(m.games, 0);
        lemma_someone_wins(g, k);
        lemma_wins_over_nonneg(g, k + 1);
        let here = both(wins_over(g, k));
        if cnt * ways > usize::MAX {
            assert(cnt * here >= cnt * ways) by (nonlinear_arith)
                requires
                    here >= ways,
                    cnt >= 0,
            ;
        } else {
            let n = (cnt * ways) as usize;
            assert(cnt * here >= n * both(s) + cnt * both(rest)) by (nonlinear_arith)
                requires
                    here == ways * both(s) + both(rest),
                    cnt >= 0,
                    n == cnt * ways,
            ;
            assert(cnt * both(rest) >= 0) by (nonlinear_arith)
                requires
                    cnt >= 0,
                    both(rest) >= 0,
            ;
            if roll_spec(m, g, n, roll) is None {
                lemma_roll_fails(m, g, n, roll, round);
            } else {
                let m2 = roll_spec(m, g, n, roll).unwrap();
                lemma_roll(m, g, n, roll);
                if score_after(g, roll) < 21 {
                    lemma_inc_running(m.games, after_roll(g, roll), n, round + 1);
                }
                lemma_play_game_fails(m2, g, cnt, k + 1, round);
                assert(n * s.0 + n * s.1 == n * both(s)) by (nonlinear_arith)
                    requires
                        both(s) == s.0 + s.1,
                ;
            }
        }
    }
}

pub proof fn lemma_round_fails(m: Multiverse, old_games: Seq<(Game, usize)>, i: int, round: int)
    requires
        0 <= i <= old_games.len(),
        running(old_games, round),
        running(m.games, round + 1),
        round_spec(m, old_games, i) is None,
    ensures
        both(value_of(m)) + both(worth(old_games, i)) > usize::MAX,
    decreases old_games.len() - i,
{
    if i < old_games.len() {
        let g = old_games[i].0;
        let n = old_games[i].1;
        assert(playable(g, round));
        lemma_worth_nonneg(old_games, i + 1);
        let w = wins_from(g);
        assert(n * w.0 + n * w.1 == n * both(w)) by (nonlinear_arith)
            requires
                both(w) == w.0 + w.1,
        ;
        if play_game_spec(m, g, n, 0) is None {
            lemma_play_game_fails(m, g, n, 0, round);
        } else {
            let m2 = play_game_spec(m, g, n, 0).unwrap();
            lemma_play_game(m, g, n, 0);
            lemma_play_game_running(m, g, n, 0, round);
            lemma_round_fails(m2, old_games, i + 1, round);
        }
    }
}

/// Where the games cannot be played to the end, the universes are too
/// many to count.
pub proof fn lemma_play_out_fails(games: Seq<(Game, usize)>, wins: (usize, usize), round: int)
    requires
        0 <= round,
        running(games, round),
        play_out(games, wins, round) is None,
    ensures
        wins.0 + wins.1 + both(worth(games, 0)) > usize::MAX,
    decreases 42 - round,
{
    assert(games.len() > 0);
    let g = games[0].0;
    assert(playable(g, round));
    assert(round < 42);
    let m0 = Multiverse { games: seq![], wins };
    assert(worth(m0.games, 0) == (0int, 0int));
    if round_spec(m0, games, 0) is None {
        lemma_round_fails(m0, games, 0, round);
    } else {
        let m = round_spec(m0, games, 0).unwrap();
        lemma_round(m0, games, 0, round);
        lemma_round_running(m0, games, 0, round);
        lemma_play_out_fails(m.games, m.wins, round + 1);
    }
}

/// What playing from the start gives: the universes that each player
/// wins, or nothing when both together win more than can be counted.
pub proof fn lemma_play_from_start_total(player_1: u32, player_2: u32)
    requires
        1 <= player_1 <= u32::MAX - 8,
        1 <= player_2 <= u32::MAX - 8,
    ensures
        match play_out(start_games(player_1, player_2), (0, 0), 0) {
            Some(w) => w.0 == universes_won(player_1, player_2).0 && w.1 == universes_won(
                player_1,
                player_2,
            ).1,
            None => both(universes_won(player_1, player_2)) > usize::MAX,
        },
{
    let games = start_games(player_1, player_2);
    let g = games[0].0;
    assert(playable(g, 0));
    assert(running(games, 0));
    if play_out(games, (0, 0), 0) is Some {
        lemma_play_from_start(player_1, player_2);
    } else {
        lemma_play_out_fails(games, (0, 0), 0);
        assert(worth(games, 1) == (0int, 0int));
        let w = wins_from(g);
        let n = games[0].1 as int;
        assert(n * w.0 == w.0 && n * w.1 == w.1) by (nonlinear_arith)
            requires
                n == 1,
        ;
    }
}

} // verus!
