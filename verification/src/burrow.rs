use crate::color::{color_of_letter, parse_color, Color};
use crate::hallway::{
    empty_around_spec, find_empty_hall_around, hall_idx_to_pos, hall_pos, lemma_empty_around,
    lemma_search_around, search_around_spec, search_hall_around,
};
use vstd::prelude::*;

verus! {

/// The column of the diagram in which room slot `idx` lies. Slots 0 to 3
/// are the upper places of the four rooms, slots 4 to 7 the lower ones.
pub open spec fn room_pos(idx: int) -> int {
    2 + 2 * (idx % 4)
}

/// How many steps below the hallway room slot `idx` lies.
pub open spec fn room_off(idx: int) -> int {
    1 + idx / 4
}

/// The column in which a room slot lies.
pub fn room_idx_to_pos(idx: usize) -> (r: u64)
    requires
        idx < 8,
    ensures
        r == room_pos(idx as int),
{
    let table: [u64; 8] = [2, 4, 6, 8, 2, 4, 6, 8];
    table[idx]
}

/// How many steps below the hallway a room slot lies.
pub fn room_idx_to_off(idx: usize) -> (r: u64)
    requires
        idx < 8,
    ensures
        r == room_off(idx as int),
{
    let table: [u64; 8] = [1, 1, 1, 1, 2, 2, 2, 2];
    table[idx]
}

/// The number of steps between a hallway spot and a room slot.
pub open spec fn path_score_spec(hall_idx: int, room_idx: int) -> int {
    let h = hall_pos(hall_idx);
    let r = room_pos(room_idx);
    (if h >= r {
        h - r
    } else {
        r - h
    }) + room_off(room_idx)
}

/// The number of steps between a hallway spot and a room slot.
pub fn get_path_score(hall_idx: usize, room_idx: usize) -> (r: u64)
    requires
        hall_idx < 7,
        room_idx < 8,
    ensures
        r == path_score_spec(hall_idx as int, room_idx as int),
        1 <= r <= 10,
{
    let h = hall_idx_to_pos(hall_idx);
    let r = room_idx_to_pos(room_idx);
    let d: u64 = if h >= r {
        h - r
    } else {
        r - h
    };
    d + room_idx_to_off(room_idx)
}

/// The slot of room `c` that an amphipod of the room's kind may move
/// into: the lower one when the room is empty, the upper one when the
/// lower one holds the room's kind, none otherwise.
pub open spec fn take_idx_spec(rooms: Seq<Option<Color>>, c: int) -> Option<usize> {
    if rooms[c] is Some {
        None
    } else if rooms[c + 4] is None {
        Some((c + 4) as usize)
    } else if rooms[c + 4] != Some(Color::of_idx(c)) {
        None
    } else {
        Some(c as usize)
    }
}

/// The slot of a room that an amphipod of the room's kind may enter.
pub fn get_room_take_idx(rooms: &[Option<Color>; 8], r_idx_min: usize) -> (r: Option<usize>)
    requires
        r_idx_min < 4,
    ensures
        r == take_idx_spec(rooms@, r_idx_min as int),
{
    if rooms[r_idx_min].is_some() {
        None
    } else if rooms[r_idx_min + 4].is_none() {
        Some(r_idx_min + 4)
    } else if rooms[r_idx_min + 4] != Some(Color::from_idx(r_idx_min)) {
        None
    } else {
        Some(r_idx_min)
    }
}

/// The slot of room `c` whose amphipod has to leave: the topmost one of
/// the room, unless all that the room holds is at home.
pub open spec fn give_idx_spec(rooms: Seq<Option<Color>>, c: int) -> Option<usize> {
    let target = Color::of_idx(c);
    if rooms[c] is Some {
        if rooms[c] == Some(target) && rooms[c + 4] == Some(target) {
            None
        } else {
            Some(c as usize)
        }
    } else {
        if rooms[c + 4] is Some && rooms[c + 4] != Some(target) {
            Some((c + 4) as usize)
        } else {
            None
        }
    }
}

/// The slot of a room whose amphipod has to leave.
pub fn get_room_give_idx(rooms: &[Option<Color>; 8], r_idx_min: usize) -> (r: Option<usize>)
    requires
        r_idx_min < 4,
    ensures
        r == give_idx_spec(rooms@, r_idx_min as int),
{
    let target = Color::from_idx(r_idx_min);
    if rooms[r_idx_min].is_some() {
        if (rooms[r_idx_min] == Some(target)) && (rooms[r_idx_min + 4] == Some(target)) {
            None
        } else {
            Some(r_idx_min)
        }
    } else {
        if rooms[r_idx_min + 4].is_some() && (rooms[r_idx_min + 4] != Some(target)) {
            Some(r_idx_min + 4)
        } else {
            None
        }
    }
}

/// The rooms when every amphipod is at home.
pub open spec fn goal() -> Seq<Option<Color>> {
    Seq::new(8, |i: int| Some(Color::of_idx(i % 4)))
}

/// Whether every amphipod is at home.
pub fn is_goal(rooms: &[Option<Color>; 8]) -> (r: bool)
    ensures
        r == (rooms@ == goal()),
{
    let mut i: usize = 0;
    while i < 8
        invariant
            i <= 8,
            forall|j: int| 0 <= j < i ==> rooms@[j] == goal()[j],
        decreases 8 - i,
    {
        if rooms[i] != Some(Color::from_idx(i % 4)) {
            assert(rooms@[i as int] != goal()[i as int]);
            return false;
        }
        i = i + 1;
    }
    assert(rooms@ =~= goal());
    true
}

pub open spec fn taken(o: Option<Color>) -> int {
    if o is Some {
        1
    } else {
        0
    }
}

/// 1 if slot `i` holds an amphipod that still has to leave it, else 0. An
/// amphipod may stay where it is if it is in its own room with nothing
/// but its own kind below it.
pub open spec fn unsettled(r: Seq<Option<Color>>, i: int) -> int {
    if r[i] is None {
        0
    } else if i >= 4 {
        if r[i] == Some(Color::of_idx(i - 4)) {
            0
        } else {
            1
        }
    } else if r[i] == Some(Color::of_idx(i)) && r[i + 4] == Some(Color::of_idx(i)) {
        0
    } else {
        1
    }
}

/// The number of amphipods in the hallway.
#[verifier::opaque]
pub open spec fn hall_taken(h: Seq<Option<Color>>) -> int {
    taken(h[0]) + taken(h[1]) + taken(h[2]) + taken(h[3]) + taken(h[4]) + taken(h[5]) + taken(
        h[6],
    )
}

/// The number of amphipods of room `c` that still have to leave their
/// slot.
pub open spec fn room_unsettled(r: Seq<Option<Color>>, c: int) -> int {
    unsettled(r, c) + unsettled(r, c + 4)
}

/// The number of amphipods that still have to leave their slot.
#[verifier::opaque]
pub open spec fn rooms_unsettled(r: Seq<Option<Color>>) -> int {
    room_unsettled(r, 0) + room_unsettled(r, 1) + room_unsettled(r, 2) + room_unsettled(r, 3)
}

/// An upper bound on the number of moves that can still be made: one for
/// each amphipod in the hallway, two for each that has to leave its slot.
pub open spec fn measure(h: Seq<Option<Color>>, r: Seq<Option<Color>>) -> int {
    hall_taken(h) + 2 * rooms_unsettled(r)
}

pub proof fn lemma_measure_bounds(h: Seq<Option<Color>>, r: Seq<Option<Color>>)
    ensures
        0 <= hall_taken(h) <= 7,
        0 <= rooms_unsettled(r) <= 8,
        0 <= measure(h, r) <= 23,
{
    reveal(hall_taken);
    reveal(rooms_unsettled);
}

pub proof fn lemma_hall_update(h: Seq<Option<Color>>, i: int, v: Option<Color>)
    requires
        h.len() == 7,
        0 <= i < 7,
    ensures
        hall_taken(h.update(i, v)) == hall_taken(h) - taken(h[i]) + taken(v),
{
    reveal(hall_taken);
    let g = h.update(i, v);
    if i == 0 {
        assert(g[0] == v);
    } else if i == 1 {
        assert(g[1] == v);
    } else if i == 2 {
        assert(g[2] == v);
    } else if i == 3 {
        assert(g[3] == v);
    } else if i == 4 {
        assert(g[4] == v);
    } else if i == 5 {
        assert(g[5] == v);
    } else {
        assert(g[6] == v);
    }
}

pub proof fn lemma_room_update(r: Seq<Option<Color>>, c: int, i: int, v: Option<Color>)
    requires
        r.len() == 8,
        0 <= c < 4,
        i == c || i == c + 4,
    ensures
        rooms_unsettled(r.update(i, v)) == rooms_unsettled(r) - room_unsettled(r, c)
            + room_unsettled(r.update(i, v), c),
{
    reveal(rooms_unsettled);
    let g = r.update(i, v);
    if c != 0 {
        assert(room_unsettled(g, 0) == room_unsettled(r, 0));
    }
    if c != 1 {
        assert(room_unsettled(g, 1) == room_unsettled(r, 1));
    }
    if c != 2 {
        assert(room_unsettled(g, 2) == room_unsettled(r, 2));
    }
    if c != 3 {
        assert(room_unsettled(g, 3) == room_unsettled(r, 3));
    }
}

/// The energy of one move between hallway spot `h_idx` and room slot
/// `r_idx`.
pub open spec fn step_cost(h_idx: int, r_idx: int, c: Color) -> int {
    path_score_spec(h_idx, r_idx) * c.cost()
}

pub proof fn lemma_step_cost(h_idx: int, r_idx: int, c: Color)
    requires
        0 <= h_idx < 7,
        0 <= r_idx < 8,
    ensures
        1 <= step_cost(h_idx, r_idx, c) <= 10000,
{
    let p = path_score_spec(h_idx, r_idx);
    let k = c.cost();
    assert(1 <= p <= 10);
    assert(1 <= k <= 1000);
    assert(1 <= p * k <= 10000) by (nonlinear_arith)
        requires
            1 <= p <= 10,
            1 <= k <= 1000,
    ;
}

/// The first room, from `i` on, that may take an amphipod and whose
/// amphipod is found in the hallway.
pub open spec fn first_take(h: Seq<Option<Color>>, r: Seq<Option<Color>>, i: int) -> Option<int>
    decreases 4 - i,
{
    if i >= 4 {
        None
    } else if take_idx_spec(r, i) is Some && search_around_spec(h, i) is Some {
        Some(i)
    } else {
        first_take(h, r, i + 1)
    }
}

pub proof fn lemma_first_take(h: Seq<Option<Color>>, r: Seq<Option<Color>>, i: int)
    requires
        0 <= i,
    ensures
        first_take(h, r, i) matches Some(c) ==> i <= c < 4 && take_idx_spec(r, c) is Some
            && search_around_spec(h, c) is Some,
    decreases 4 - i,
{
    if i < 4 && !(take_idx_spec(r, i) is Some && search_around_spec(h, i) is Some) {
        lemma_first_take(h, r, i + 1);
    }
}

/// Moving an amphipod home takes one off the measure.
pub proof fn lemma_take_step(h: Seq<Option<Color>>, r: Seq<Option<Color>>, c: int)
    requires
        h.len() == 7,
        r.len() == 8,
        0 <= c < 4,
        take_idx_spec(r, c) is Some,
        search_around_spec(h, c) is Some,
    ensures
        ({
            let r_idx = take_idx_spec(r, c).unwrap() as int;
            let h_idx = search_around_spec(h, c).unwrap() as int;
            &&& 0 <= r_idx < 8
            &&& 0 <= h_idx < 7
            &&& measure(h.update(h_idx, None), r.update(r_idx, Some(Color::of_idx(c)))) == measure(
                h,
                r,
            ) - 1
            &&& measure(h, r) >= 1
        }),
{
    lemma_search_around(h, c);
    let r_idx = take_idx_spec(r, c).unwrap() as int;
    let h_idx = search_around_spec(h, c).unwrap() as int;
    lemma_hall_update(h, h_idx, None);
    lemma_room_update(r, c, r_idx, Some(Color::of_idx(c)));
    lemma_measure_bounds(h.update(h_idx, None), r.update(r_idx, Some(Color::of_idx(c))));
}

/// Moving an amphipod out of a room into a free spot takes one off the
/// measure.
pub proof fn lemma_punt_step(h: Seq<Option<Color>>, r: Seq<Option<Color>>, c: int, h_idx: int)
    requires
        h.len() == 7,
        r.len() == 8,
        0 <= c < 4,
        give_idx_spec(r, c) is Some,
        0 <= h_idx < 7,
        h[h_idx] is None,
    ensures
        ({
            let r_idx = give_idx_spec(r, c).unwrap() as int;
            &&& 0 <= r_idx < 8
            &&& r[r_idx] is Some
            &&& measure(h.update(h_idx, r[r_idx]), r.update(r_idx, None)) == measure(h, r) - 1
            &&& measure(h, r) >= 1
        }),
{
    let r_idx = give_idx_spec(r, c).unwrap() as int;
    lemma_hall_update(h, h_idx, r[r_idx]);
    lemma_room_update(r, c, r_idx, None);
    lemma_measure_bounds(h.update(h_idx, r[r_idx]), r.update(r_idx, None));
}

/// The least energy found so far, and the moves that reach it: for each
/// move the room slot, the hallway spot, the energy and the kind.
pub type Best = (Option<u64>, Option<Seq<(usize, usize, u64, Color)>>);

pub open spec fn best_view(min: Option<u64>, best: Option<Vec<(usize, usize, u64, Color)>>) -> Best {
    (
        min,
        match best {
            Some(v) => Some(v@),
            None => None,
        },
    )
}

/// The outcome of the search from one position. `score` is the energy
/// spent so far, `hist` the moves made so far, `st` the best found before.
///
/// A position that has cost as much as the best found is given up. A
/// position with all at home becomes the best. Else, if some room can take
/// its amphipod from the hallway, that move is made and no other is tried
/// (the first such room in room order). Else every amphipod that has to
/// leave its room is tried on every free spot that it can reach, room by
/// room, and each try is searched in turn with the best found so far.
pub open spec fn search(
    h: Seq<Option<Color>>,
    r: Seq<Option<Color>>,
    score: u64,
    hist: Seq<(usize, usize, u64, Color)>,
    st: Best,
) -> Best
    decreases measure(h, r), 2int, 0int,
{
    if h.len() != 7 || r.len() != 8 {
        st
    } else if st.0 is Some && st.0.unwrap() <= score {
        st
    } else if r == goal() {
        (Some(score), Some(hist))
    } else {
        match first_take(h, r, 0) {
            Some(c) => {
                if 0 <= c < 4 && take_idx_spec(r, c) is Some && search_around_spec(h, c) is Some {
                    let r_idx = take_idx_spec(r, c).unwrap();
                    let h_idx = search_around_spec(h, c).unwrap();
                    let target = Color::of_idx(c);
                    let step = step_cost(h_idx as int, r_idx as int, target) as u64;
                    proof {
                        lemma_take_step(h, r, c);
                    }
                    search(
                        h.update(h_idx as int, None),
                        r.update(r_idx as int, Some(target)),
                        (score + step) as u64,
                        hist.push((r_idx, h_idx, step, target)),
                        st,
                    )
                } else {
                    st
                }
            },
            None => punt_rooms(h, r, score, hist, st, 0),
        }
    }
}

/// The outcome of trying the amphipods that have to leave the rooms from
/// `c` on.
pub open spec fn punt_rooms(
    h: Seq<Option<Color>>,
    r: Seq<Option<Color>>,
    score: u64,
    hist: Seq<(usize, usize, u64, Color)>,
    st: Best,
    c: int,
) -> Best
    decreases measure(h, r), 1int, 4 - c,
{
    if c < 0 || c >= 4 {
        st
    } else if give_idx_spec(r, c) is Some {
        punt_rooms(
            h,
            r,
            score,
            hist,
            punt_spots(h, r, score, hist, st, c, empty_around_spec(h, c), 0),
            c + 1,
        )
    } else {
        punt_rooms(h, r, score, hist, st, c + 1)
    }
}

/// The outcome of trying the amphipod that has to leave room `c` on the
/// free spots `spots`, from the `k`-th on.
pub open spec fn punt_spots(
    h: Seq<Option<Color>>,
    r: Seq<Option<Color>>,
    score: u64,
    hist: Seq<(usize, usize, u64, Color)>,
    st: Best,
    c: int,
    spots: Seq<usize>,
    k: int,
) -> Best
    decreases measure(h, r), 0int, spots.len() - k,
{
    if k < 0 || k >= spots.len() || h.len() != 7 || r.len() != 8 || c < 0 || c >= 4
        || give_idx_spec(r, c) is None || spots[k] >= 7 || h[spots[k] as int] is Some {
        st
    } else {
        let r_idx = give_idx_spec(r, c).unwrap();
        let h_idx = spots[k];
        let target = r[r_idx as int].unwrap();
        let step = step_cost(h_idx as int, r_idx as int, target) as u64;
        proof {
            lemma_punt_step(h, r, c, h_idx as int);
        }
        punt_spots(
            h,
            r,
            score,
            hist,
            search(
                h.update(h_idx as int, r[r_idx as int]),
                r.update(r_idx as int, None),
                (score + step) as u64,
                hist.push((r_idx, h_idx, step, target)),
                st,
            ),
            c,
            spots,
            k + 1,
        )
    }
}

/// The lesser of two energies, where `None` stands for no way at all.
pub open spec fn opt_min(a: Option<int>, b: Option<int>) -> Option<int> {
    match (a, b) {
        (Some(x), Some(y)) => Some(
            if x <= y {
                x
            } else {
                y
            },
        ),
        (Some(x), None) => Some(x),
        (None, _) => b,
    }
}

/// The energy `a` after `n` more has been spent.
pub open spec fn opt_add(n: int, a: Option<int>) -> Option<int> {
    match a {
        Some(x) => Some(n + x),
        None => None,
    }
}

/// An energy as an integer.
pub open spec fn lift(a: Option<u64>) -> Option<int> {
    match a {
        Some(x) => Some(x as int),
        None => None,
    }
}

/// The least energy that brings every amphipod home from a position,
/// `None` when no play does.
///
/// When all are at home nothing is left to spend. When some room can take
/// its amphipod from the hallway, that move is made (the first such room
/// in room order). Else the play goes on with the cheapest of the moves
/// that take an amphipod which has to leave its room to a free spot that
/// it can reach.
pub open spec fn finish(h: Seq<Option<Color>>, r: Seq<Option<Color>>) -> Option<int>
    decreases measure(h, r), 2int, 0int,
{
    if h.len() != 7 || r.len() != 8 {
        None
    } else if r == goal() {
        Some(0)
    } else {
        match first_take(h, r, 0) {
            Some(c) => {
                if 0 <= c < 4 && take_idx_spec(r, c) is Some && search_around_spec(h, c) is Some {
                    let r_idx = take_idx_spec(r, c).unwrap();
                    let h_idx = search_around_spec(h, c).unwrap();
                    let target = Color::of_idx(c);
                    proof {
                        lemma_take_step(h, r, c);
                    }
                    opt_add(
                        step_cost(h_idx as int, r_idx as int, target),
                        finish(h.update(h_idx as int, None), r.update(r_idx as int, Some(target))),
                    )
                } else {
                    None
                }
            },
            None => finish_rooms(h, r, 0),
        }
    }
}

/// The least energy of a play that begins with a move out of one of the
/// rooms from `c` on.
pub open spec fn finish_rooms(h: Seq<Option<Color>>, r: Seq<Option<Color>>, c: int) -> Option<int>
    decreases measure(h, r), 1int, 4 - c,
{
    if c < 0 || c >= 4 {
        None
    } else if give_idx_spec(r, c) is Some {
        opt_min(finish_spots(h, r, c, empty_around_spec(h, c), 0), finish_rooms(h, r, c + 1))
    } else {
        finish_rooms(h, r, c + 1)
    }
}

/// The least energy of a play that begins with a move out of room `c` to
/// one of the spots `spots`, from the `k`-th on.
pub open spec fn finish_spots(
    h: Seq<Option<Color>>,
    r: Seq<Option<Color>>,
    c: int,
    spots: Seq<usize>,
    k: int,
) -> Option<int>
    decreases measure(h, r), 0int, spots.len() - k,
{
    if k < 0 || k >= spots.len() || h.len() != 7 || r.len() != 8 || c < 0 || c >= 4
        || give_idx_spec(r, c) is None || spots[k] >= 7 || h[spots[k] as int] is Some {
        None
    } else {
        let r_idx = give_idx_spec(r, c).unwrap();
        let h_idx = spots[k];
        let target = r[r_idx as int].unwrap();
        proof {
            lemma_punt_step(h, r, c, h_idx as int);
        }
        opt_min(
            opt_add(
                step_cost(h_idx as int, r_idx as int, target),
                finish(h.update(h_idx as int, r[r_idx as int]), r.update(r_idx as int, None)),
            ),
            finish_spots(h, r, c, spots, k + 1),
        )
    }
}

/// No play costs less than nothing, and none more than the greatest step
/// for each move that the measure allows.
pub proof fn lemma_finish_bounds(h: Seq<Option<Color>>, r: Seq<Option<Color>>)
    ensures
        finish(h, r) matches Some(v) ==> 0 <= v <= 10000 * measure(h, r),
    decreases measure(h, r), 2int, 0int,
{
    lemma_measure_bounds(h, r);
    if h.len() == 7 && r.len() == 8 && r != goal() {
        match first_take(h, r, 0) {
            Some(c) => {
                lemma_first_take(h, r, 0);
                let r_idx = take_idx_spec(r, c).unwrap();
                let h_idx = search_around_spec(h, c).unwrap();
                lemma_take_step(h, r, c);
                lemma_step_cost(h_idx as int, r_idx as int, Color::of_idx(c));
                lemma_finish_bounds(
                    h.update(h_idx as int, None),
                    r.update(r_idx as int, Some(Color::of_idx(c))),
                );
            },
            None => {
                lemma_finish_rooms_bounds(h, r, 0);
            },
        }
    }
}

pub proof fn lemma_finish_rooms_bounds(h: Seq<Option<Color>>, r: Seq<Option<Color>>, c: int)
    requires
        h.len() == 7,
        r.len() == 8,
    ensures
        finish_rooms(h, r, c) matches Some(v) ==> 0 <= v <= 10000 * measure(h, r),
    decreases measure(h, r), 1int, 4 - c,
{
    if 0 <= c < 4 {
        lemma_finish_rooms_bounds(h, r, c + 1);
        if give_idx_spec(r, c) is Some {
            lemma_finish_spots_bounds(h, r, c, empty_around_spec(h, c), 0);
        }
    }
}

pub proof fn lemma_finish_spots_bounds(
    h: Seq<Option<Color>>,
    r: Seq<Option<Color>>,
    c: int,
    spots: Seq<usize>,
    k: int,
)
    ensures
        finish_spots(h, r, c, spots, k) matches Some(v) ==> 0 <= v <= 10000 * measure(h, r),
    decreases measure(h, r), 0int, spots.len() - k,
{
    if !(k < 0 || k >= spots.len() || h.len() != 7 || r.len() != 8 || c < 0 || c >= 4
        || give_idx_spec(r, c) is None || spots[k] >= 7 || h[spots[k] as int] is Some) {
        let r_idx = give_idx_spec(r, c).unwrap();
        let h_idx = spots[k];
        lemma_punt_step(h, r, c, h_idx as int);
        lemma_step_cost(h_idx as int, r_idx as int, r[r_idx as int].unwrap());
        lemma_finish_bounds(h.update(h_idx as int, r[r_idx as int]), r.update(r_idx as int, None));
        lemma_finish_spots_bounds(h, r, c, spots, k + 1);
    }
}

/// The search finds the least energy: what it leaves is the lesser of
/// the best found before and the energy spent so far together with the
/// least energy that brings every amphipod home from the position.
pub proof fn lemma_search_least(
    h: Seq<Option<Color>>,
    r: Seq<Option<Color>>,
    score: u64,
    hist: Seq<(usize, usize, u64, Color)>,
    st: Best,
)
    requires
        score + 10000 * measure(h, r) <= u64::MAX,
    ensures
        lift(search(h, r, score, hist, st).0) == opt_min(
            lift(st.0),
            opt_add(score as int, finish(h, r)),
        ),
    decreases measure(h, r), 2int, 0int,
{
    lemma_finish_bounds(h, r);
    lemma_measure_bounds(h, r);
    if h.len() != 7 || r.len() != 8 {
    } else if st.0 is Some && st.0.unwrap() <= score {
    } else if r == goal() {
    } else {
        match first_take(h, r, 0) {
            Some(c) => {
                lemma_first_take(h, r, 0);
                let r_idx = take_idx_spec(r, c).unwrap();
                let h_idx = search_around_spec(h, c).unwrap();
                let target = Color::of_idx(c);
                let step = step_cost(h_idx as int, r_idx as int, target);
                lemma_take_step(h, r, c);
                lemma_step_cost(h_idx as int, r_idx as int, target);
                lemma_search_least(
                    h.update(h_idx as int, None),
                    r.update(r_idx as int, Some(target)),
                    (score + step) as u64,
                    hist.push((r_idx, h_idx, step as u64, target)),
                    st,
                );
            },
            None => {
                lemma_punt_rooms_least(h, r, score, hist, st, 0);
            },
        }
    }
}

pub proof fn lemma_punt_rooms_least(
    h: Seq<Option<Color>>,
    r: Seq<Option<Color>>,
    score: u64,
    hist: Seq<(usize, usize, u64, Color)>,
    st: Best,
    c: int,
)
    requires
        h.len() == 7,
        r.len() == 8,
        score + 10000 * measure(h, r) <= u64::MAX,
    ensures
        lift(punt_rooms(h, r, score, hist, st, c).0) == opt_min(
            lift(st.0),
            opt_add(score as int, finish_rooms(h, r, c)),
        ),
    decreases measure(h, r), 1int, 4 - c,
{
    lemma_finish_rooms_bounds(h, r, c);
    if 0 <= c < 4 {
        lemma_finish_rooms_bounds(h, r, c + 1);
        if give_idx_spec(r, c) is Some {
            let spots = empty_around_spec(h, c);
            lemma_finish_spots_bounds(h, r, c, spots, 0);
            lemma_punt_spots_least(h, r, score, hist, st, c, spots, 0);
            lemma_punt_rooms_least(
                h,
                r,
                score,
                hist,
                punt_spots(h, r, score, hist, st, c, spots, 0),
                c + 1,
            );
        } else {
            lemma_punt_rooms_least(h, r, score, hist, st, c + 1);
        }
    }
}

pub proof fn lemma_punt_spots_least(
    h: Seq<Option<Color>>,
    r: Seq<Option<Color>>,
    score: u64,
    hist: Seq<(usize, usize, u64, Color)>,
    st: Best,
    c: int,
    spots: Seq<usize>,
    k: int,
)
    requires
        score + 10000 * measure(h, r) <= u64::MAX,
    ensures
        lift(punt_spots(h, r, score, hist, st, c, spots, k).0) == opt_min(
            lift(st.0),
            opt_add(score as int, finish_spots(h, r, c, spots, k)),
        ),
    decreases measure(h, r), 0int, spots.len() - k,
{
    lemma_finish_spots_bounds(h, r, c, spots, k);
    if !(k < 0 || k >= spots.len() || h.len() != 7 || r.len() != 8 || c < 0 || c >= 4
        || give_idx_spec(r, c) is None || spots[k] >= 7 || h[spots[k] as int] is Some) {
        let r_idx = give_idx_spec(r, c).unwrap();
        let h_idx = spots[k];
        let target = r[r_idx as int].unwrap();
        let step = step_cost(h_idx as int, r_idx as int, target);
        lemma_punt_step(h, r, c, h_idx as int);
        lemma_step_cost(h_idx as int, r_idx as int, target);
        let h2 = h.update(h_idx as int, r[r_idx as int]);
        let r2 = r.update(r_idx as int, None);
        let hist2 = hist.push((r_idx, h_idx, step as u64, target));
        lemma_finish_bounds(h2, r2);
        lemma_finish_spots_bounds(h, r, c, spots, k + 1);
        lemma_search_least(h2, r2, (score + step) as u64, hist2, st);
        lemma_punt_spots_least(
            h,
            r,
            score,
            hist,
            search(h2, r2, (score + step) as u64, hist2, st),
            c,
            spots,
            k + 1,
        );
    }
}

fn copy_moves(v: &Vec<(usize, usize, u64, Color)>) -> (r: Vec<(usize, usize, u64, Color)>)
    ensures
        r@ == v@,
{
    let mut out: Vec<(usize, usize, u64, Color)> = Vec::new();
    let mut i: usize = 0;
    while i < v.len()
        invariant
            i <= v.len(),
            out@ == v@.subrange(0, i as int),
        decreases v.len() - i,
    {
        out.push(v[i]);
        i = i + 1;
        assert(out@ =~= v@.subrange(0, i as int));
    }
    assert(v@.subrange(0, i as int) =~= v@);
    out
}

/// Searches from one position for the cheapest way to bring every
/// amphipod home, and leaves in `min` and `best_hist` the best found.
pub fn best_score_r(
    hall: [Option<Color>; 7],
    rooms: [Option<Color>; 8],
    score: u64,
    min: &mut Option<u64>,
    hist: Vec<(usize, usize, u64, Color)>,
    best_hist: &mut Option<Vec<(usize, usize, u64, Color)>>,
)
    requires
        score + 10000 * measure(hall@, rooms@) <= u64::MAX,
    ensures
        best_view(*final(min), *final(best_hist)) == search(
            hall@,
            rooms@,
            score,
            hist@,
            best_view(*old(min), *old(best_hist)),
        ),
    decreases measure(hall@, rooms@),
{
    let ghost st0 = best_view(*min, *best_hist);
    match *min {
        Some(m) => {
            if m <= score {
                return ;
            }
        },
        None => {},
    }
    if is_goal(&rooms) {
        *min = Some(score);
        *best_hist = Some(hist);
        return ;
    }
    let mut c: usize = 0;
    while c < 4
        invariant
            c <= 4,
            first_take(hall@, rooms@, 0) == first_take(hall@, rooms@, c as int),
            best_view(*min, *best_hist) == st0,
            st0 == best_view(*old(min), *old(best_hist)),
            score + 10000 * measure(hall@, rooms@) <= u64::MAX,
            !(st0.0 is Some && st0.0.unwrap() <= score),
            rooms@ != goal(),
        decreases 4 - c,
    {
        match get_room_take_idx(&rooms, c) {
            Some(r_idx) => {
                match search_hall_around(&hall, c) {
                    Some(h_idx) => {
                        proof {
                            lemma_take_step(hall@, rooms@, c as int);
                            lemma_step_cost(h_idx as int, r_idx as int, Color::of_idx(c as int));
                        }
                        let target = Color::from_idx(c);
                        let mut new_hall = hall;
                        let mut new_rooms = rooms;
                        new_hall[h_idx] = None;
                        new_rooms[r_idx] = Some(target);
                        let step: u64 = get_path_score(h_idx, r_idx) * target.get_cost();
                        let mut next_hist = hist;
                        next_hist.push((r_idx, h_idx, step, target));
                        assert(first_take(hall@, rooms@, c as int) == Some(c as int));
                        best_score_r(new_hall, new_rooms, score + step, min, next_hist, best_hist);
                        return ;
                    },
                    None => {},
                }
            },
            None => {},
        }
        c = c + 1;
    }
    let mut c: usize = 0;
    while c < 4
        invariant
            c <= 4,
            score + 10000 * measure(hall@, rooms@) <= u64::MAX,
            first_take(hall@, rooms@, 0) is None,
            st0 == best_view(*old(min), *old(best_hist)),
            !(st0.0 is Some && st0.0.unwrap() <= score),
            rooms@ != goal(),
            punt_rooms(hall@, rooms@, score, hist@, best_view(*min, *best_hist), c as int)
                == punt_rooms(hall@, rooms@, score, hist@, st0, 0),
        decreases 4 - c,
    {
        match get_room_give_idx(&rooms, c) {
            Some(r_idx) => {
                let spots = find_empty_hall_around(&hall, c);
                let ghost st1 = best_view(*min, *best_hist);
                let mut k: usize = 0;
                proof {
                    lemma_empty_around(hall@, c as int);
                }
                while k < spots.len()
                    invariant
                        k <= spots.len(),
                        c < 4,
                        score + 10000 * measure(hall@, rooms@) <= u64::MAX,
                        give_idx_spec(rooms@, c as int) == Some(r_idx),
                        spots@ == empty_around_spec(hall@, c as int),
                        forall|j: int|
                            0 <= j < spots.len() ==> {
                                let h = #[trigger] spots@[j];
                                0 <= h < 7 && hall@[h as int] is None
                            },
                        punt_spots(
                            hall@,
                            rooms@,
                            score,
                            hist@,
                            best_view(*min, *best_hist),
                            c as int,
                            spots@,
                            k as int,
                        ) == punt_spots(hall@, rooms@, score, hist@, st1, c as int, spots@, 0),
                    decreases spots.len() - k,
                {
                    let h_idx: usize = spots[k];
                    assert(0 <= spots@[k as int] < 7 && hall@[spots@[k as int] as int] is None);
                    proof {
                        lemma_punt_step(hall@, rooms@, c as int, h_idx as int);
                    }
                    let target = match rooms[r_idx] {
                        Some(t) => t,
                        None => Color::Amber,
                    };
                    proof {
                        lemma_step_cost(h_idx as int, r_idx as int, target);
                    }
                    let mut new_hall = hall;
                    let mut new_rooms = rooms;
                    let mut new_hist = copy_moves(&hist);
                    let step: u64 = get_path_score(h_idx, r_idx) * target.get_cost();
                    new_hist.push((r_idx, h_idx, step, target));
                    new_hall[h_idx] = new_rooms[r_idx];
                    new_rooms[r_idx] = None;
                    best_score_r(new_hall, new_rooms, score + step, min, new_hist, best_hist);
                    k = k + 1;
                }
            },
            None => {},
        }
        c = c + 1;
    }
}

/// The least energy that the search finds for bringing every amphipod
/// home, `None` if it finds no way.
pub fn best_score(hall: [Option<Color>; 7], rooms: [Option<Color>; 8]) -> (r: Option<u64>)
    ensures
        lift(r) == finish(hall@, rooms@),
        r == search(hall@, rooms@, 0, seq![], (None, None)).0,
{
    let mut min: Option<u64> = None;
    let mut best: Option<Vec<(usize, usize, u64, Color)>> = None;
    proof {
        lemma_measure_bounds(hall@, rooms@);
        lemma_search_least(hall@, rooms@, 0, seq![], (None, None));
    }
    let hist: Vec<(usize, usize, u64, Color)> = Vec::new();
    assert(hist@ =~= seq![]);
    best_score_r(hall, rooms, 0, &mut min, hist, &mut best);
    min
}

/// The amphipods that the letters of a text stand for; other characters
/// are passed over.
pub open spec fn amphipods_of(s: Seq<char>) -> Seq<Color>
    decreases s.len(),
{
    if s.len() == 0 {
        seq![]
    } else {
        match color_of_letter(s.last()) {
            Some(c) => amphipods_of(s.drop_last()).push(c),
            None => amphipods_of(s.drop_last()),
        }
    }
}

fn read_amphipods(s: &Vec<char>, out: &mut Vec<Color>)
    ensures
        final(out)@ == old(out)@ + amphipods_of(s@),
{
    let mut i: usize = 0;
    assert(out@ =~= old(out)@ + amphipods_of(s@.subrange(0, 0)));
    while i < s.len()
        invariant
            i <= s.len(),
            out@ == old(out)@ + amphipods_of(s@.subrange(0, i as int)),
        decreases s.len() - i,
    {
        proof {
            assert(s@.subrange(0, i + 1).drop_last() =~= s@.subrange(0, i as int));
            assert(s@.subrange(0, i + 1).last() == s@[i as int]);
        }
        let ghost before = out@;
        match parse_color(s[i]) {
            Some(c) => {
                out.push(c);
                assert(out@ =~= old(out)@ + amphipods_of(s@.subrange(0, i as int)).push(c));
            },
            None => {},
        }
        i = i + 1;
    }
    assert(s@.subrange(0, i as int) =~= s@);
}

/// Reads the diagram of the burrow: the empty hallway, and the rooms as
/// the letters of the third and fourth line give them, slot by slot.
/// `None` when there are fewer than four lines or more than eight
/// letters.
pub fn read_data(lines: &Vec<Vec<char>>) -> (r: Option<([Option<Color>; 7], [Option<Color>; 8])>)
    ensures
        r is Some <==> lines.len() >= 4 && (amphipods_of(lines[2]@) + amphipods_of(
            lines[3]@,
        )).len() <= 8,
        r matches Some(v) ==> {
            let found = amphipods_of(lines[2]@) + amphipods_of(lines[3]@);
            &&& forall|i: int| 0 <= i < 7 ==> #[trigger] v.0[i] is None
            &&& forall|i: int|
                0 <= i < 8 ==> #[trigger] v.1[i] == (if i < found.len() {
                    Some(found[i])
                } else {
                    None
                })
        },
{
    if lines.len() < 4 {
        return None;
    }
    let mut found: Vec<Color> = Vec::new();
    read_amphipods(&lines[2], &mut found);
    read_amphipods(&lines[3], &mut found);
    assert(found@ =~= amphipods_of(lines[2]@) + amphipods_of(lines[3]@));
    if found.len() > 8 {
        return None;
    }
    let mut rooms: [Option<Color>; 8] = [None, None, None, None, None, None, None, None];
    let mut i: usize = 0;
    while i < found.len()
        invariant
            i <= found.len(),
            found.len() <= 8,
            forall|k: int|
                0 <= k < 8 ==> #[trigger] rooms[k] == (if k < i {
                    Some(found[k])
                } else {
                    None
                }),
        decreases found.len() - i,
    {
        rooms[i] = Some(found[i]);
        i = i + 1;
    }
    Some(([None, None, None, None, None, None, None], rooms))
}

/// The character that stands for a place of the diagram.
pub open spec fn cell(o: Option<Color>) -> char {
    match o {
        Some(c) => c.letter(),
        None => '.',
    }
}

/// The diagram of the burrow, line by line. The columns of the hallway
/// above the rooms are always free.
pub open spec fn diagram(hall: Seq<Option<Color>>, rooms: Seq<Option<Color>>) -> Seq<Seq<char>> {
    seq![
        seq!['#', '#', '#', '#', '#', '#', '#', '#', '#', '#', '#', '#', '#'],
        seq![
            '#',
            cell(hall[0]),
            cell(hall[1]),
            '.',
            cell(hall[2]),
            '.',
            cell(hall[3]),
            '.',
            cell(hall[4]),
            '.',
            cell(hall[5]),
            cell(hall[6]),
            '#',
        ],
        seq![
            '#',
            '#',
            '#',
            cell(rooms[0]),
            '#',
            cell(rooms[1]),
            '#',
            cell(rooms[2]),
            '#',
            cell(rooms[3]),
            '#',
            '#',
            '#',
        ],
        seq![
            ' ',
            ' ',
            '#',
            cell(rooms[4]),
            '#',
            cell(rooms[5]),
            '#',
            cell(rooms[6]),
            '#',
            cell(rooms[7]),
            '#',
        ],
        seq![' ', ' ', '#', '#', '#', '#', '#', '#', '#', '#', '#'],
    ]
}

fn cell_char(o: Option<Color>) -> (r: char)
    ensures
        r == cell(o),
{
    match o {
        Some(c) => c.get_letter(),
        None => '.',
    }
}

/// Draws the burrow.
pub fn display_game(hall: &[Option<Color>; 7], rooms: &[Option<Color>; 8]) -> (r: Vec<Vec<char>>)
    ensures
        crate::text::views(r@) == diagram(hall@, rooms@),
{
    let top: Vec<char> = vec!['#', '#', '#', '#', '#', '#', '#', '#', '#', '#', '#', '#', '#'];
    let way: Vec<char> = vec![
        '#',
        cell_char(hall[0]),
        cell_char(hall[1]),
        '.',
        cell_char(hall[2]),
        '.',
        cell_char(hall[3]),
        '.',
        cell_char(hall[4]),
        '.',
        cell_char(hall[5]),
        cell_char(hall[6]),
        '#',
    ];
    let upper: Vec<char> = vec![
        '#',
        '#',
        '#',
        cell_char(rooms[0]),
        '#',
        cell_char(rooms[1]),
        '#',
        cell_char(rooms[2]),
        '#',
        cell_char(rooms[3]),
        '#',
        '#',
        '#',
    ];
    let lower: Vec<char> = vec![
        ' ',
        ' ',
        '#',
        cell_char(rooms[4]),
        '#',
        cell_char(rooms[5]),
        '#',
        cell_char(rooms[6]),
        '#',
        cell_char(rooms[7]),
        '#',
    ];
    let floor: Vec<char> = vec![' ', ' ', '#', '#', '#', '#', '#', '#', '#', '#', '#'];
    let ghost want = diagram(hall@, rooms@);
    assert(top@ =~= want[0]);
    assert(way@ =~= want[1]);
    assert(upper@ =~= want[2]);
    assert(lower@ =~= want[3]);
    assert(floor@ =~= want[4]);
    let r: Vec<Vec<char>> = vec![top, way, upper, lower, floor];
    assert(crate::text::views(r@) =~= want);
    r
}

} // verus!
