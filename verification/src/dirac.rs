use crate::text;
use crate::universes::{both, lemma_play_from_start_total, universes_won};
use vstd::prelude::*;

verus! {

/// The die of the practice game: it shows 1, 2, ... 100, 1, 2, ... and
/// counts how often it was rolled.
pub struct DieP1 {
    pub inner: u32,
    pub roll_cnt: u32,
}

impl DieP1 {
    /// Rolls the die.
    pub fn roll(&mut self) -> (r: u32)
        requires
            old(self).inner < u32::MAX,
            old(self).roll_cnt < u32::MAX,
        ensures
            r == old(self).inner + 1,
            final(self).inner == (old(self).inner + 1) % 100,
            final(self).roll_cnt == old(self).roll_cnt + 1,
    {
        self.roll_cnt += 1;
        self.inner += 1;
        let r = self.inner;
        self.inner %= 100;
        r
    }

    /// A die that has not been rolled.
    pub fn new() -> (d: DieP1)
        ensures
            d.inner == 0,
            d.roll_cnt == 0,
    {
        DieP1 { inner: 0, roll_cnt: 0 }
    }

    /// How often the die has been rolled.
    pub fn get_roll_count(&self) -> (r: u32)
        ensures
            r == self.roll_cnt,
    {
        self.roll_cnt
    }
}

/// The starting place that a line ends with: what follows its last blank,
/// read as a `u32`.
pub open spec fn parse_start_spec(s: Seq<char>) -> Option<u32> {
    match text::rsplit_once_spec(s, ' ') {
        Some((_, tail)) => text::u32_of(tail),
        None => None,
    }
}

/// Reads the starting place that a line ends with.
pub fn parse_start(s: &Vec<char>) -> (r: Option<u32>)
    ensures
        r == parse_start_spec(s@),
{
    match text::rsplit_once(s, ' ') {
        Some((_, tail)) => text::parse_u32(&tail),
        None => None,
    }
}

/// Reads the starting places of the two players from the first two lines.
pub fn read_data(lines: &Vec<Vec<char>>) -> (r: Option<(u32, u32)>)
    ensures
        r == (if lines.len() < 2 {
            None
        } else {
            match (parse_start_spec(lines[0]@), parse_start_spec(lines[1]@)) {
                (Some(a), Some(b)) => Some((a, b)),
                _ => None,
            }
        }),
{
    if lines.len() < 2 {
        return None;
    }
    match (parse_start(&lines[0]), parse_start(&lines[1])) {
        (Some(a), Some(b)) => Some((a, b)),
        _ => None,
    }
}

/// A player of the practice game: the score, and the place on the track
/// counted from 0.
pub struct Player {
    pub score: u32,
    pub pos: u32,
}

impl Player {
    /// A player on the given place, counted from 1, without points.
    pub fn new_with_pos(pos: u32) -> (p: Player)
        requires
            pos >= 1,
        ensures
            p.score == 0,
            p.pos == pos - 1,
    {
        Player { score: 0, pos: pos - 1 }
    }

    /// Moves the player `n` places round the track of ten and scores the
    /// place reached.
    pub fn turn(&mut self, n: u32)
        requires
            old(self).pos + n <= u32::MAX,
            old(self).score + 10 <= u32::MAX,
        ensures
            final(self).pos == (old(self).pos + n) % 10,
            final(self).score == old(self).score + (old(self).pos + n) % 10 + 1,
    {
        self.pos += n;
        self.pos %= 10;
        self.score += self.pos + 1;
    }

    /// Whether the player has the thousand points of the practice game.
    pub fn is_winning(&self) -> (r: bool)
        ensures
            r == (self.score >= 1000),
    {
        self.score >= 1000
    }
}

/// The state of a practice game: the die's face and count, then place and
/// score of the player to move and of the other one.
pub struct Practice {
    pub face: int,
    pub rolls: int,
    pub pos: int,
    pub score: int,
    pub other_pos: int,
    pub other_score: int,
}

/// The sum of three rolls of a die that last showed `face`.
pub open spec fn three_rolls(face: int) -> int {
    (face + 1) + ((face + 1) % 100 + 1) + (((face + 1) % 100 + 1) % 100 + 1)
}

/// The face that the die shows after three rolls.
pub open spec fn face_after(face: int) -> int {
    (((face + 1) % 100 + 1) % 100 + 1) % 100
}

/// The score of the loser times the number of rolls, when the game is
/// played on from `g`.
pub open spec fn practice_spec(g: Practice) -> int
    decreases 2000 - g.score - g.other_score,
{
    let pos = (g.pos + three_rolls(g.face)) % 10;
    let score = g.score + pos + 1;
    if g.score >= 1000 || g.other_score >= 1000 || g.pos < 0 || g.face < 0 {
        0
    } else if score >= 1000 {
        g.other_score * (g.rolls + 3)
    } else {
        practice_spec(
            Practice {
                face: face_after(g.face),
                rolls: g.rolls + 3,
                pos: g.other_pos,
                score: g.other_score,
                other_pos: pos,
                other_score: score,
            },
        )
    }
}

/// Plays the practice game from the two starting places, and returns the
/// score of the loser times the number of rolls.
pub fn p1(player_1: u32, player_2: u32) -> (r: u32)
    requires
        1 <= player_1 <= u32::MAX - 300,
        1 <= player_2 <= u32::MAX - 300,
    ensures
        r == practice_spec(
            Practice {
                face: 0,
                rolls: 0,
                pos: player_1 - 1,
                score: 0,
                other_pos: player_2 - 1,
                other_score: 0,
            },
        ),
{
    let mut die = DieP1::new();
    let mut mover = Player::new_with_pos(player_1);
    let mut other = Player::new_with_pos(player_2);
    let ghost start = Practice {
        face: 0,
        rolls: 0,
        pos: player_1 - 1,
        score: 0,
        other_pos: player_2 - 1,
        other_score: 0,
    };
    loop
        invariant
            start == (Practice {
                face: 0,
                rolls: 0,
                pos: player_1 - 1,
                score: 0,
                other_pos: player_2 - 1,
                other_score: 0,
            }),
            die.inner < 100,
            die.roll_cnt <= 3 * (mover.score + other.score),
            mover.score < 1000,
            other.score < 1000,
            mover.pos <= u32::MAX - 300,
            other.pos <= u32::MAX - 300,
            practice_spec(start) == practice_spec(
                Practice {
                    face: die.inner as int,
                    rolls: die.roll_cnt as int,
                    pos: mover.pos as int,
                    score: mover.score as int,
                    other_pos: other.pos as int,
                    other_score: other.score as int,
                },
            ),
        decreases 2000 - mover.score - other.score,
    {
        let a = die.roll();
        let b = die.roll();
        let c = die.roll();
        mover.turn(a + b + c);
        if mover.is_winning() {
            assert(other.score * die.roll_cnt <= 1000 * 7000) by (nonlinear_arith)
                requires
                    other.score < 1000,
                    die.roll_cnt <= 7000,
            ;
            return other.score * die.roll_cnt;
        }
        let next = other;
        other = mover;
        mover = next;
    }
}

/// A game of the real kind: for each player place (from 0) and score, and
/// whose turn it is.
#[derive(Copy, Clone, Debug)]
pub struct Game {
    pub plays: [(u32, u32); 2],
    pub is_p2_turn: bool,
}

/// The number of universes counted for `k` in a list of games and counts.
pub open spec fn count_of(hm: Seq<(Game, usize)>, k: Game) -> int
    decreases hm.len(),
{
    if hm.len() == 0 {
        0
    } else {
        count_of(hm.drop_last(), k) + (if hm.last().0 == k {
            hm.last().1 as int
        } else {
            0
        })
    }
}

/// Whether no game stands twice in the list.
pub open spec fn distinct_keys(hm: Seq<(Game, usize)>) -> bool {
    forall|i: int, j: int| 0 <= i < j < hm.len() ==> hm[i].0 != hm[j].0
}

/// The first index from `i` on where `k` stands in the list, or the
/// length of the list.
pub open spec fn find_game(hm: Seq<(Game, usize)>, k: Game, i: int) -> int
    decreases hm.len() - i,
{
    if i < 0 || i >= hm.len() {
        hm.len() as int
    } else if hm[i].0 == k {
        i
    } else {
        find_game(hm, k, i + 1)
    }
}

/// The list after `n` more universes have been counted for `k`; `None`
/// if the count leaves the range of `usize`.
pub open spec fn inc_spec(hm: Seq<(Game, usize)>, k: Game, n: usize) -> Option<Seq<(Game, usize)>> {
    let i = find_game(hm, k, 0);
    if i < hm.len() {
        if hm[i].1 + n <= usize::MAX {
            Some(hm.update(i, (hm[i].0, (hm[i].1 + n) as usize)))
        } else {
            None
        }
    } else {
        Some(hm.push((k, n)))
    }
}

pub proof fn lemma_find_game(hm: Seq<(Game, usize)>, k: Game, i: int)
    requires
        0 <= i <= hm.len(),
    ensures
        i <= find_game(hm, k, i) <= hm.len(),
        find_game(hm, k, i) < hm.len() ==> hm[find_game(hm, k, i)].0 == k,
        forall|j: int| i <= j < find_game(hm, k, i) ==> hm[j].0 != k,
    decreases hm.len() - i,
{
    if i < hm.len() && hm[i].0 != k {
        lemma_find_game(hm, k, i + 1);
    }
}

pub proof fn lemma_count_absent(hm: Seq<(Game, usize)>, k: Game)
    requires
        forall|i: int| 0 <= i < hm.len() ==> hm[i].0 != k,
    ensures
        count_of(hm, k) == 0,
    decreases hm.len(),
{
    if hm.len() > 0 {
        assert(hm[hm.len() - 1].0 != k);
        assert forall|i: int| 0 <= i < hm.drop_last().len() implies hm.drop_last()[i].0 != k by {
            assert(hm.drop_last()[i] == hm[i]);
        }
        lemma_count_absent(hm.drop_last(), k);
    }
}

pub proof fn lemma_count_update(hm: Seq<(Game, usize)>, i: int, n: usize, k: Game)
    requires
        0 <= i < hm.len(),
    ensures
        count_of(hm.update(i, (hm[i].0, n)), k) == count_of(hm, k) + (if hm[i].0 == k {
            n - hm[i].1
        } else {
            0
        }),
    decreases hm.len(),
{
    let new = hm.update(i, (hm[i].0, n));
    if i == hm.len() - 1 {
        assert(new.drop_last() =~= hm.drop_last());
    } else {
        assert(new.drop_last() =~= hm.drop_last().update(i, (hm[i].0, n)));
        lemma_count_update(hm.drop_last(), i, n, k);
    }
}

/// Counting `n` more universes for `k` raises the count of `k` by `n`,
/// leaves the other counts alone, and keeps each game in the list once.
pub proof fn lemma_inc(hm: Seq<(Game, usize)>, k: Game, n: usize)
    requires
        distinct_keys(hm),
        inc_spec(hm, k, n) is Some,
    ensures
        distinct_keys(inc_spec(hm, k, n).unwrap()),
        forall|g: Game|
            count_of(inc_spec(hm, k, n).unwrap(), g) == count_of(hm, g) + (if g == k {
                n as int
            } else {
                0
            }),
{
    let i = find_game(hm, k, 0);
    lemma_find_game(hm, k, 0);
    let out = inc_spec(hm, k, n).unwrap();
    if i < hm.len() {
        assert forall|g: Game|
            count_of(out, g) == count_of(hm, g) + (if g == k {
                n as int
            } else {
                0
            }) by {
            lemma_count_update(hm, i, (hm[i].1 + n) as usize, g);
        }
    } else {
        assert forall|g: Game|
            count_of(out, g) == count_of(hm, g) + (if g == k {
                n as int
            } else {
                0
            }) by {
            assert(out.drop_last() =~= hm);
        }
    }
}

fn same_game(a: &Game, b: &Game) -> (r: bool)
    ensures
        r == (*a == *b),
{
    let r = a.plays[0].0 == b.plays[0].0 && a.plays[0].1 == b.plays[0].1 && a.plays[1].0
        == b.plays[1].0 && a.plays[1].1 == b.plays[1].1 && a.is_p2_turn == b.is_p2_turn;
    proof {
        if r {
            assert(a.plays =~= b.plays);
        }
    }
    r
}

/// Counts `n` more universes for the game `k`. Returns `false`, and leaves
/// the list as it was, if the count would leave the range of `usize`.
pub fn inc_hashmap(hm: &mut Vec<(Game, usize)>, k: Game, n: usize) -> (ok: bool)
    ensures
        ok == inc_spec(old(hm)@, k, n).is_some(),
        ok ==> final(hm)@ == inc_spec(old(hm)@, k, n).unwrap(),
        !ok ==> final(hm)@ == old(hm)@,
{
    let mut i: usize = 0;
    while i < hm.len()
        invariant
            i <= hm.len(),
            *hm == *old(hm),
            find_game(hm@, k, 0) == find_game(hm@, k, i as int),
        decreases hm.len() - i,
    {
        if same_game(&hm[i].0, &k) {
            let entry = hm[i];
            match entry.1.checked_add(n) {
                Some(total) => {
                    hm.set(i, (entry.0, total));
                    return true;
                },
                None => {
                    return false;
                },
            }
        }
        i = i + 1;
    }
    hm.push((k, n));
    true
}

/// The games still running with the number of universes in which each is
/// reached, and the number of universes that each player has won.
pub ghost struct Multiverse {
    pub games: Seq<(Game, usize)>,
    pub wins: (usize, usize),
}

/// The game after the player to move has thrown `roll` in all.
pub open spec fn after_roll(g: Game, roll: u32) -> Game {
    let mover = if g.is_p2_turn {
        g.plays[1]
    } else {
        g.plays[0]
    };
    let pos = ((mover.0 + roll) % 10) as u32;
    let moved = (pos, (mover.1 + pos + 1) as u32);
    if g.is_p2_turn {
        Game { plays: [g.plays[0], moved], is_p2_turn: !g.is_p2_turn }
    } else {
        Game { plays: [moved, g.plays[1]], is_p2_turn: !g.is_p2_turn }
    }
}

/// The score that the player to move has after throwing `roll`.
pub open spec fn score_after(g: Game, roll: u32) -> int {
    let mover = if g.is_p2_turn {
        g.plays[1]
    } else {
        g.plays[0]
    };
    mover.1 + (mover.0 + roll) % 10 + 1
}

/// The multiverse after `g_cnt` universes of game `g` have seen the total
/// `roll`: with 21 points the mover wins them, else the game goes on.
/// `None` when a count leaves the range of `usize`.
pub open spec fn roll_spec(m: Multiverse, g: Game, g_cnt: usize, roll: u32) -> Option<Multiverse> {
    if score_after(g, roll) >= 21 {
        if g.is_p2_turn {
            if m.wins.1 + g_cnt <= usize::MAX {
                Some(Multiverse { games: m.games, wins: (m.wins.0, (m.wins.1 + g_cnt) as usize) })
            } else {
                None
            }
        } else {
            if m.wins.0 + g_cnt <= usize::MAX {
                Some(Multiverse { games: m.games, wins: ((m.wins.0 + g_cnt) as usize, m.wins.1) })
            } else {
                None
            }
        }
    } else {
        match inc_spec(m.games, after_roll(g, roll), g_cnt) {
            Some(games) => Some(Multiverse { games, wins: m.wins }),
            None => None,
        }
    }
}

/// The totals of three throws of a die with three faces, each with the
/// number of ways in which it comes about.
pub open spec fn outcomes() -> Seq<(u32, usize)> {
    seq![(3, 1), (4, 3), (5, 6), (6, 7), (7, 6), (8, 3), (9, 1)]
}

/// The multiverse after `g_cnt` universes of game `g` have played one
/// turn, the outcomes from the `k`-th on.
pub open spec fn play_game_spec(m: Multiverse, g: Game, g_cnt: usize, k: int) -> Option<Multiverse>
    decreases 7 - k,
{
    if k < 0 || k >= 7 {
        Some(m)
    } else if g_cnt * outcomes()[k].1 > usize::MAX {
        None
    } else {
        match roll_spec(m, g, (g_cnt * outcomes()[k].1) as usize, outcomes()[k].0) {
            Some(m2) => play_game_spec(m2, g, g_cnt, k + 1),
            None => None,
        }
    }
}

/// The multiverse after the games of `old_games`, from the `i`-th on, have
/// each played one turn.
pub open spec fn round_spec(m: Multiverse, old_games: Seq<(Game, usize)>, i: int) -> Option<
    Multiverse,
>
    decreases old_games.len() - i,
{
    if i < 0 || i >= old_games.len() {
        Some(m)
    } else {
        match play_game_spec(m, old_games[i].0, old_games[i].1, 0) {
            Some(m2) => round_spec(m2, old_games, i + 1),
            None => None,
        }
    }
}

/// Whether every game of the list is still running and has seen at least
/// `round` turns: no score has reached 21, and the scores add up to at
/// least `round`.
pub open spec fn running(games: Seq<(Game, usize)>, round: int) -> bool {
    forall|i: int|
        0 <= i < games.len() ==> {
            let g = #[trigger] games[i].0;
            g.plays[0].0 <= u32::MAX - 9 && g.plays[1].0 <= u32::MAX - 9 && g.plays[0].1 < 21 && g.plays[1].1 < 21
                && g.plays[0].1 + g.plays[1].1 >= round
        }
}

/// The numbers of universes that the players win when the games of
/// `games` are played to the end.
pub open spec fn play_out(games: Seq<(Game, usize)>, wins: (usize, usize), round: int) -> Option<
    (usize, usize),
>
    decreases 42 - round,
{
    if games.len() == 0 {
        Some(wins)
    } else if round >= 42 {
        None
    } else {
        match round_spec(Multiverse { games: seq![], wins }, games, 0) {
            Some(m) => play_out(m.games, m.wins, round + 1),
            None => None,
        }
    }
}

pub proof fn lemma_inc_running(hm: Seq<(Game, usize)>, k: Game, n: usize, round: int)
    requires
        running(hm, round),
        k.plays[0].0 <= u32::MAX - 9 && k.plays[1].0 <= u32::MAX - 9 && k.plays[0].1 < 21 && k.plays[1].1 < 21
            && k.plays[0].1 + k.plays[1].1 >= round,
        inc_spec(hm, k, n) is Some,
    ensures
        running(inc_spec(hm, k, n).unwrap(), round),
{
    let out = inc_spec(hm, k, n).unwrap();
    lemma_find_game(hm, k, 0);
    assert forall|i: int| 0 <= i < out.len() implies {
        let g = #[trigger] out[i].0;
        g.plays[0].0 <= u32::MAX - 9 && g.plays[1].0 <= u32::MAX - 9 && g.plays[0].1 < 21 && g.plays[1].1 < 21
            && g.plays[0].1 + g.plays[1].1 >= round
    } by {
        if i < hm.len() {
            assert(out[i].0 == hm[i].0);
        }
    }
}

fn play_game_roll(
    g: Game,
    g_cnt: usize,
    win_counts: &mut [usize; 2],
    map: &mut Vec<(Game, usize)>,
    roll: u32,
    Ghost(round): Ghost<int>,
) -> (ok: bool)
    requires
        3 <= roll <= 9,
        g.plays[0].0 <= u32::MAX - 9 && g.plays[1].0 <= u32::MAX - 9 && g.plays[0].1 < 21 && g.plays[1].1 < 21,
        g.plays[0].1 + g.plays[1].1 >= round,
        running(old(map)@, round + 1),
    ensures
        ok == roll_spec(
            Multiverse { games: old(map)@, wins: (old(win_counts)[0], old(win_counts)[1]) },
            g,
            g_cnt,
            roll,
        ).is_some(),
        ok ==> Some(
            Multiverse { games: final(map)@, wins: (final(win_counts)[0], final(win_counts)[1]) },
        ) == roll_spec(
            Multiverse { games: old(map)@, wins: (old(win_counts)[0], old(win_counts)[1]) },
            g,
            g_cnt,
            roll,
        ),
        ok ==> running(final(map)@, round + 1),
{
    let mut g = g;
    let ghost g0 = g;
    let turn_idx: usize = if g.is_p2_turn {
        1
    } else {
        0
    };
    let mut cur = g.plays[turn_idx];
    cur.0 = cur.0 + roll;
    cur.0 = cur.0 % 10;
    cur.1 = cur.1 + cur.0 + 1;
    if cur.1 >= 21 {
        match win_counts[turn_idx].checked_add(g_cnt) {
            Some(total) => {
                win_counts[turn_idx] = total;
                true
            },
            None => false,
        }
    } else {
        g.plays[turn_idx] = cur;
        g.is_p2_turn = !g.is_p2_turn;
        proof {
            assert(g.plays =~= after_roll(g0, roll).plays);
            if inc_spec(map@, g, g_cnt) is Some {
                lemma_inc_running(map@, g, g_cnt, round + 1);
            }
        }
        inc_hashmap(map, g, g_cnt)
    }
}

fn play_game(
    g: Game,
    g_cnt: usize,
    win_counts: &mut [usize; 2],
    map: &mut Vec<(Game, usize)>,
    Ghost(round): Ghost<int>,
) -> (ok: bool)
    requires
        g.plays[0].0 <= u32::MAX - 9 && g.plays[1].0 <= u32::MAX - 9 && g.plays[0].1 < 21 && g.plays[1].1 < 21,
        g.plays[0].1 + g.plays[1].1 >= round,
        running(old(map)@, round + 1),
    ensures
        ok == play_game_spec(
            Multiverse { games: old(map)@, wins: (old(win_counts)[0], old(win_counts)[1]) },
            g,
            g_cnt,
            0,
        ).is_some(),
        ok ==> Some(
            Multiverse { games: final(map)@, wins: (final(win_counts)[0], final(win_counts)[1]) },
        ) == play_game_spec(
            Multiverse { games: old(map)@, wins: (old(win_counts)[0], old(win_counts)[1]) },
            g,
            g_cnt,
            0,
        ),
        ok ==> running(final(map)@, round + 1),
{
    let table: [(u32, usize); 7] = [(3, 1), (4, 3), (5, 6), (6, 7), (7, 6), (8, 3), (9, 1)];
    assert(table@ =~= outcomes());
    let ghost m0 = Multiverse { games: map@, wins: (win_counts[0], win_counts[1]) };
    let mut k: usize = 0;
    while k < 7
        invariant
            k <= 7,
            table@ == outcomes(),
            g.plays[0].0 <= u32::MAX - 9 && g.plays[1].0 <= u32::MAX - 9 && g.plays[0].1 < 21 && g.plays[1].1 < 21,
            g.plays[0].1 + g.plays[1].1 >= round,
            running(map@, round + 1),
            m0 == (Multiverse { games: old(map)@, wins: (old(win_counts)[0], old(win_counts)[1]) }),
            play_game_spec(m0, g, g_cnt, 0) == play_game_spec(
                Multiverse { games: map@, wins: (win_counts[0], win_counts[1]) },
                g,
                g_cnt,
                k as int,
            ),
        decreases 7 - k,
    {
        let (roll, cnt) = table[k];
        assert(roll == outcomes()[k as int].0 && cnt == outcomes()[k as int].1);
        match g_cnt.checked_mul(cnt) {
            Some(n) => {
                if !play_game_roll(g, n, win_counts, map, roll, Ghost(round)) {
                    return false;
                }
            },
            None => {
                return false;
            },
        }
        k = k + 1;
    }
    true
}

/// The one universe in which the game begins: the players stand on their
/// starting places, counted from 1, and the first player is to move.
pub open spec fn start_games(player_1: u32, player_2: u32) -> Seq<(Game, usize)> {
    seq![
        (
            Game {
                plays: [((player_1 - 1) as u32, 0), ((player_2 - 1) as u32, 0)],
                is_p2_turn: false,
            },
            1usize,
        ),
    ]
}

/// The greater of the numbers of universes that the two players win from
/// the given starting places. `None` when a count leaves the range of
/// `usize`, which happens only where both players together win more
/// universes than that.
pub fn p2(player_1: u32, player_2: u32) -> (r: Option<usize>)
    requires
        1 <= player_1 <= u32::MAX - 8,
        1 <= player_2 <= u32::MAX - 8,
    ensures
        match r {
            Some(v) => v == (if universes_won(player_1, player_2).0 >= universes_won(
                player_1,
                player_2,
            ).1 {
                universes_won(player_1, player_2).0
            } else {
                universes_won(player_1, player_2).1
            }),
            None => both(universes_won(player_1, player_2)) > usize::MAX,
        },
        r == (match play_out(start_games(player_1, player_2), (0, 0), 0) {
            Some(w) => Some(
                if w.0 >= w.1 {
                    w.0
                } else {
                    w.1
                },
            ),
            None => None,
        }),
{
    let mut games_ls: Vec<(Game, usize)> = Vec::new();
    let mut win_counts: [usize; 2] = [0, 0];
    let start = Game { plays: [(player_1 - 1, 0), (player_2 - 1, 0)], is_p2_turn: false };
    games_ls.push((start, 1));
    let ghost first = games_ls@;
    assert(start.plays =~= [((player_1 - 1) as u32, 0u32), ((player_2 - 1) as u32, 0u32)]);
    assert(first =~= start_games(player_1, player_2));
    let mut round: usize = 0;
    while games_ls.len() != 0
        invariant
            round <= 42,
            1 <= player_1 <= u32::MAX - 8,
            1 <= player_2 <= u32::MAX - 8,
            first == start_games(player_1, player_2),
            running(games_ls@, round as int),
            play_out(first, (0, 0), 0) == play_out(
                games_ls@,
                (win_counts[0], win_counts[1]),
                round as int,
            ),
        decreases 42 - round,
    {
        proof {
            let g = games_ls@[0].0;
            assert(g.plays[0].1 + g.plays[1].1 >= round);
        }
        let mut new_games_ls: Vec<(Game, usize)> = Vec::new();
        let ghost m0 = Multiverse { games: new_games_ls@, wins: (win_counts[0], win_counts[1]) };
        assert(m0.games =~= seq![]);
        let mut i: usize = 0;
        while i < games_ls.len()
            invariant
                i <= games_ls.len(),
                round < 41,
                games_ls.len() != 0,
                1 <= player_1 <= u32::MAX - 8,
                1 <= player_2 <= u32::MAX - 8,
                first == start_games(player_1, player_2),
                m0.games == Seq::<(Game, usize)>::empty(),
                play_out(first, (0, 0), 0) == play_out(games_ls@, m0.wins, round as int),
                running(games_ls@, round as int),
                running(new_games_ls@, round + 1),
                round_spec(m0, games_ls@, 0) == round_spec(
                    Multiverse { games: new_games_ls@, wins: (win_counts[0], win_counts[1]) },
                    games_ls@,
                    i as int,
                ),
            decreases games_ls.len() - i,
        {
            let (game, cnt) = games_ls[i];
            assert(games_ls@[i as int].0 == game);
            if !play_game(game, cnt, &mut win_counts, &mut new_games_ls, Ghost(round as int)) {
                proof {
                    lemma_play_from_start_total(player_1, player_2);
                }
                return None;
            }
            i = i + 1;
        }
        games_ls = new_games_ls;
        round = round + 1;
    }
    proof {
        lemma_play_from_start_total(player_1, player_2);
    }
    Some(if win_counts[0] >= win_counts[1] {
        win_counts[0]
    } else {
        win_counts[1]
    })
}

} // verus!
