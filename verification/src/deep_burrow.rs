use crate::burrow::{hall_taken, lemma_hall_update, lemma_measure_bounds, opt_min};
use crate::color::Color;
use crate::hallway::{
    empty_around_spec, find_empty_hall_around, hall_idx_to_pos, hall_pos, lemma_empty_around,
    lemma_search_around, search_around_spec, search_hall_around,
};
use std::collections::HashMap;
use vstd::prelude::*;

verus! {

broadcast use vstd::std_specs::hash::group_hash_axioms;

/// The column of the diagram in which room slot `idx` lies. Slots 0 to 3
/// are the top places of the four rooms, slots 12 to 15 the bottom ones.
pub open spec fn room_pos(idx: int) -> int {
    2 + 2 * (idx % 4)
}

/// How many steps below the hallway room slot `idx` lies.
pub open spec fn room_off(idx: int) -> int {
    1 + idx / 4
}

/// The column in which a room slot lies.
pub fn room_idx_to_pos(idx: usize) -> (r: u64)
    requires
        idx < 16,
    ensures
        r == room_pos(idx as int),
{
    let table: [u64; 16] = [2, 4, 6, 8, 2, 4, 6, 8, 2, 4, 6, 8, 2, 4, 6, 8];
    table[idx]
}

/// How many steps below the hallway a room slot lies.
pub fn room_idx_to_off(idx: usize) -> (r: u64)
    requires
        idx < 16,
    ensures
        r == room_off(idx as int),
{
    let table: [u64; 16] = [1, 1, 1, 1, 2, 2, 2, 2, 3, 3, 3, 3, 4, 4, 4, 4];
    table[idx]
}

/// The number of steps between a hallway spot and a room slot.
pub open spec fn path_score_spec(hall_idx: int, room_idx: int) -> int {
    let h = hall_pos(hall_idx);
    let r = room_pos(room_idx);
    (if h >= r {
        h - r
    } else {
        r - h
    }) + room_off(room_idx)
}

/// The number of steps between a hallway spot and a room slot.
pub fn get_path_score(hall_idx: usize, room_idx: usize) -> (r: u64)
    requires
        hall_idx < 7,
        room_idx < 16,
    ensures
        r == path_score_spec(hall_idx as int, room_idx as int),
        1 <= r <= 12,
{
    let h = hall_idx_to_pos(hall_idx);
    let r = room_idx_to_pos(room_idx);
    let d: u64 = if h >= r {
        h - r
    } else {
        r - h
    };
    d + room_idx_to_off(room_idx)
}

/// The slot of room `c` that an amphipod of the room's kind may move
/// into, looking at the rows from `i` up: the lowest free one, provided
/// that all below it hold the room's kind.
pub open spec fn take_to_spec(rooms: Seq<Option<Color>>, c: int, i: int) -> Option<usize>
    decreases i + 1,
{
    if i < 0 {
        None
    } else {
        match rooms[4 * i + c] {
            None => Some((4 * i + c) as usize),
            Some(k) => if k != Color::of_idx(c) {
                None
            } else {
                take_to_spec(rooms, c, i - 1)
            },
        }
    }
}

/// The slot of room `c` whose amphipod has to leave, looking at the rows
/// from `i` up, when `ret` is what the rows below gave: the topmost slot
/// of the pile that stands on the floor, provided that the pile holds a
/// stranger.
pub open spec fn give_from_spec(rooms: Seq<Option<Color>>, c: int, i: int, ret: Option<usize>)
    -> Option<usize>
    decreases i + 1,
{
    if i < 0 {
        ret
    } else {
        match rooms[4 * i + c] {
            None => ret,
            Some(k) => give_from_spec(
                rooms,
                c,
                i - 1,
                if ret is Some || k != Color::of_idx(c) {
                    Some((4 * i + c) as usize)
                } else {
                    ret
                },
            ),
        }
    }
}

/// The slot of a room that an amphipod of the room's kind may enter.
pub fn get_room_take_idx(rooms: &[Option<Color>; 16], r_idx_min: usize) -> (r: Option<usize>)
    requires
        r_idx_min < 4,
    ensures
        r == take_to_spec(rooms@, r_idx_min as int, 3),
{
    let target = Color::from_idx(r_idx_min);
    let mut n: usize = 4;
    while n > 0
        invariant
            n <= 4,
            r_idx_min < 4,
            target == Color::of_idx(r_idx_min as int),
            take_to_spec(rooms@, r_idx_min as int, 3) == take_to_spec(
                rooms@,
                r_idx_min as int,
                n - 1,
            ),
        decreases n,
    {
        let i: usize = n - 1;
        let r_idx: usize = i * 4 + r_idx_min;
        match rooms[r_idx] {
            None => {
                return Some(r_idx);
            },
            Some(t) => {
                if t != target {
                    return None;
                }
            },
        }
        n = n - 1;
    }
    None
}

/// The slot of a room whose amphipod has to leave.
pub fn get_room_give_idx(rooms: &[Option<Color>; 16], r_idx_min: usize) -> (r: Option<usize>)
    requires
        r_idx_min < 4,
    ensures
        r == give_from_spec(rooms@, r_idx_min as int, 3, None),
{
    let target = Color::from_idx(r_idx_min);
    let mut had_good = false;
    let mut n: usize = 4;
    while n > 0
        invariant
            n <= 4,
            r_idx_min < 4,
            target == Color::of_idx(r_idx_min as int),
            had_good ==> n < 4,
            give_from_spec(rooms@, r_idx_min as int, 3, None) == give_from_spec(
                rooms@,
                r_idx_min as int,
                n - 1,
                if had_good {
                    Some((4 * n + r_idx_min) as usize)
                } else {
                    None
                },
            ),
        decreases n,
    {
        let i: usize = n - 1;
        let r_idx: usize = i * 4 + r_idx_min;
        match rooms[r_idx] {
            None => {
                return if had_good {
                    Some(r_idx + 4)
                } else {
                    None
                };
            },
            Some(c) => {
                if c != target {
                    had_good = true;
                }
            },
        }
        n = n - 1;
    }
    if had_good {
        Some(r_idx_min)
    } else {
        None
    }
}

/// One position of the large burrow, with the energy spent and the number
/// of moves made to reach it.
#[derive(Copy, Clone, Debug)]
pub struct Game {
    pub hall: [Option<Color>; 7],
    pub rooms: [Option<Color>; 16],
    pub score: u64,
    pub moves: u32,
}

pub ghost struct GameView {
    pub hall: Seq<Option<Color>>,
    pub rooms: Seq<Option<Color>>,
    pub score: u64,
    pub moves: u32,
}

impl View for Game {
    type V = GameView;

    open spec fn view(&self) -> GameView {
        GameView { hall: self.hall@, rooms: self.rooms@, score: self.score, moves: self.moves }
    }
}

/// The number that stands for `o` in a position's identifier.
pub open spec fn cell_digit(o: Option<Color>) -> int {
    match o {
        Some(c) => c.idx(),
        None => 4,
    }
}

/// The cells read as the digits of a number in base five, the first cell
/// being the most significant.
pub open spec fn cells_id(cells: Seq<Option<Color>>) -> int
    decreases cells.len(),
{
    if cells.len() == 0 {
        0
    } else {
        5 * cells_id(cells.drop_last()) + cell_digit(cells.last())
    }
}

pub open spec fn pow5(n: nat) -> int
    decreases n,
{
    if n == 0 {
        1
    } else {
        5 * pow5((n - 1) as nat)
    }
}

pub proof fn lemma_cells_id_bound(cells: Seq<Option<Color>>)
    ensures
        0 <= cells_id(cells) < pow5(cells.len()),
    decreases cells.len(),
{
    if cells.len() > 0 {
        lemma_cells_id_bound(cells.drop_last());
    }
}

pub proof fn lemma_pow5_23()
    ensures
        pow5(23) == 11920928955078125,
{
    reveal_with_fuel(pow5, 24);
}

pub proof fn lemma_pow5_monotonic(a: nat, b: nat)
    requires
        a <= b,
    ensures
        0 < pow5(a) <= pow5(b),
    decreases b,
{
    if a < b {
        lemma_pow5_monotonic(a, (b - 1) as nat);
    } else if a > 0 {
        lemma_pow5_monotonic((a - 1) as nat, (a - 1) as nat);
    }
}

/// The rooms when every amphipod is at home.
pub open spec fn goal() -> Seq<Option<Color>> {
    Seq::new(16, |i: int| Some(Color::of_idx(i % 4)))
}

/// The position after the occupants of hallway spot `h_idx` and room slot
/// `r_idx` have changed places, at the cost of a move of kind `c`.
pub open spec fn swap_hr_spec(g: GameView, h_idx: int, r_idx: int, c: Color) -> GameView {
    GameView {
        hall: g.hall.update(h_idx, g.rooms[r_idx]),
        rooms: g.rooms.update(r_idx, g.hall[h_idx]),
        score: (g.score + path_score_spec(h_idx, r_idx) * c.cost()) as u64,
        moves: (g.moves + 1) as u32,
    }
}

/// The energy of a move between two room slots.
pub open spec fn room_path_cost_spec(idx_low: int, idx_high: int) -> int {
    room_pos(idx_high) - room_pos(idx_low) + room_off(idx_low) + room_off(idx_high)
}

impl Game {
    /// A number that tells positions apart: hallway and rooms read as
    /// digits in base five.
    pub fn unique_id(&self) -> (r: u64)
        ensures
            r == cells_id(self.hall@ + self.rooms@),
    {
        let ghost cells = self.hall@ + self.rooms@;
        let mut acc: u64 = 0;
        let mut i: usize = 0;
        while i < 7
            invariant
                i <= 7,
                cells == self.hall@ + self.rooms@,
                acc == cells_id(cells.subrange(0, i as int)),
            decreases 7 - i,
        {
            proof {
                let next = cells.subrange(0, i + 1);
                assert(next.drop_last() =~= cells.subrange(0, i as int));
                assert(next.last() == self.hall@[i as int]);
                lemma_cells_id_bound(cells.subrange(0, i as int));
                lemma_pow5_monotonic(i as nat, 22);
                lemma_pow5_23();
            }
            acc = acc * 5;
            acc = acc + match self.hall[i] {
                Some(c) => c.get_idx() as u64,
                None => 4,
            };
            i = i + 1;
        }
        let mut j: usize = 0;
        while j < 16
            invariant
                j <= 16,
                cells == self.hall@ + self.rooms@,
                acc == cells_id(cells.subrange(0, 7 + j)),
            decreases 16 - j,
        {
            proof {
                let next = cells.subrange(0, 7 + j + 1);
                assert(next.drop_last() =~= cells.subrange(0, 7 + j));
                assert(next.last() == self.rooms@[j as int]);
                lemma_cells_id_bound(cells.subrange(0, 7 + j));
                lemma_pow5_monotonic((7 + j) as nat, 22);
                lemma_pow5_23();
            }
            acc = acc * 5;
            acc = acc + match self.rooms[j] {
                Some(c) => c.get_idx() as u64,
                None => 4,
            };
            j = j + 1;
        }
        assert(cells.subrange(0, 23) =~= cells);
        acc
    }

    /// The slot of a room that an amphipod of the room's kind may enter.
    pub fn get_take_to_idx(&self, r_idx_min: usize) -> (r: Option<usize>)
        requires
            r_idx_min < 4,
        ensures
            r == take_to_spec(self.rooms@, r_idx_min as int, 3),
    {
        let mut n: usize = 4;
        while n > 0
            invariant
                n <= 4,
                r_idx_min < 4,
                take_to_spec(self.rooms@, r_idx_min as int, 3) == take_to_spec(
                    self.rooms@,
                    r_idx_min as int,
                    n - 1,
                ),
            decreases n,
        {
            let i: usize = n - 1;
            let r_idx: usize = i * 4 + r_idx_min;
            match self.rooms[r_idx] {
                None => {
                    return Some(r_idx);
                },
                Some(c) => {
                    if c.get_idx() != r_idx_min {
                        return None;
                    }
                },
            }
            n = n - 1;
        }
        None
    }

    /// The slot of a room whose amphipod has to leave.
    pub fn get_give_from_idx(&self, r_idx_min: usize) -> (r: Option<usize>)
        requires
            r_idx_min < 4,
        ensures
            r == give_from_spec(self.rooms@, r_idx_min as int, 3, None),
    {
        let mut ret: Option<usize> = None;
        let mut n: usize = 4;
        while n > 0
            invariant
                n <= 4,
                r_idx_min < 4,
                give_from_spec(self.rooms@, r_idx_min as int, 3, None) == give_from_spec(
                    self.rooms@,
                    r_idx_min as int,
                    n - 1,
                    ret,
                ),
            decreases n,
        {
            let i: usize = n - 1;
            let r_idx: usize = i * 4 + r_idx_min;
            match self.rooms[r_idx] {
                None => {
                    return ret;
                },
                Some(c) => {
                    if ret.is_some() || (c.get_idx() != r_idx_min) {
                        ret = Some(r_idx);
                    }
                },
            }
            n = n - 1;
        }
        ret
    }

    /// Whether every amphipod is at home.
    pub fn is_winning(&self) -> (r: bool)
        ensures
            r == (self.rooms@ == goal()),
    {
        let mut i: usize = 0;
        while i < 16
            invariant
                i <= 16,
                forall|j: int| 0 <= j < i ==> self.rooms@[j] == goal()[j],
            decreases 16 - i,
        {
            if self.rooms[i] != Some(Color::from_idx(i % 4)) {
                assert(self.rooms@[i as int] != goal()[i as int]);
                return false;
            }
            i = i + 1;
        }
        assert(self.rooms@ =~= goal());
        true
    }

    /// Whether some room can no longer be cleared. No such position is
    /// recognised.
    pub fn has_room_jam(&self) -> (r: bool)
        ensures
            !r,
    {
        false
    }

    /// Whether the hallway is free between the doors of two rooms.
    pub fn is_path_between_rooms(&self, idx_low_min: usize, idx_high_min: usize) -> (r: bool)
        requires
            idx_low_min + 2 <= usize::MAX,
            idx_high_min + 1 <= usize::MAX,
            idx_low_min < idx_high_min ==> idx_high_min < 6,
        ensures
            r == forall|j: int| idx_low_min + 2 <= j <= idx_high_min + 1 ==> self.hall@[j] is None,
    {
        let mut hall_idx: usize = idx_low_min + 2;
        while hall_idx <= idx_high_min + 1
            invariant
                idx_low_min + 2 <= hall_idx,
                idx_high_min + 1 <= usize::MAX,
                idx_low_min < idx_high_min ==> idx_high_min < 6,
                forall|j: int| idx_low_min + 2 <= j < hall_idx ==> self.hall@[j] is None,
            decreases idx_high_min + 2 - hall_idx,
        {
            if self.hall[hall_idx].is_some() {
                return false;
            }
            hall_idx = hall_idx + 1;
        }
        true
    }

    /// The number of steps between two room slots.
    pub fn room_path_cost(idx_low: usize, idx_high: usize) -> (r: u64)
        requires
            idx_low < 16,
            idx_high < 16,
            room_pos(idx_low as int) <= room_pos(idx_high as int),
        ensures
            r == room_path_cost_spec(idx_low as int, idx_high as int),
            2 <= r <= 14,
    {
        room_idx_to_pos(idx_high) - room_idx_to_pos(idx_low) + room_idx_to_off(idx_low)
            + room_idx_to_off(idx_high)
    }

    /// The position after a move between hallway spot `hall_idx` and room
    /// slot `room_idx` by an amphipod of kind `c`.
    pub fn with_swap_hr(self, hall_idx: usize, room_idx: usize, c: Color) -> (r: Game)
        requires
            hall_idx < 7,
            room_idx < 16,
            self.score + path_score_spec(hall_idx as int, room_idx as int) * c.cost() <= u64::MAX,
            self.moves < u32::MAX,
        ensures
            r@ == swap_hr_spec(self@, hall_idx as int, room_idx as int, c),
    {
        let mut g = self;
        let from_hall = g.hall[hall_idx];
        let from_room = g.rooms[room_idx];
        g.hall[hall_idx] = from_room;
        g.rooms[room_idx] = from_hall;
        let step: u64 = get_path_score(hall_idx, room_idx);
        let cost: u64 = c.get_cost();
        assert(step * cost <= 12000) by (nonlinear_arith)
            requires
                step <= 12,
                cost <= 1000,
        ;
        g.score = g.score + step * cost;
        g.moves = g.moves + 1;
        g
    }

    /// The position after a move between two room slots by an amphipod of
    /// kind `c`.
    pub fn with_swap_rr(self, i1: usize, i2: usize, c: Color) -> (r: Game)
        requires
            i1 < 16,
            i2 < 16,
            i1 != i2,
            room_pos(vstd::math::min(i1 as int, i2 as int)) <= room_pos(
                vstd::math::max(i1 as int, i2 as int),
            ),
            self.score + room_path_cost_spec(
                vstd::math::min(i1 as int, i2 as int),
                vstd::math::max(i1 as int, i2 as int),
            ) * c.cost() <= u64::MAX,
            self.moves < u32::MAX,
        ensures
            r.hall == self.hall,
            r.rooms@ == self.rooms@.update(i1 as int, self.rooms@[i2 as int]).update(
                i2 as int,
                self.rooms@[i1 as int],
            ),
            r.score == self.score + room_path_cost_spec(
                vstd::math::min(i1 as int, i2 as int),
                vstd::math::max(i1 as int, i2 as int),
            ) * c.cost(),
            r.moves == self.moves + 1,
    {
        let idx_low: usize = if i1 <= i2 {
            i1
        } else {
            i2
        };
        let idx_high: usize = if i1 <= i2 {
            i2
        } else {
            i1
        };
        let mut g = self;
        let a = g.rooms[idx_low];
        let b = g.rooms[idx_high];
        g.rooms[idx_low] = b;
        g.rooms[idx_high] = a;
        let step: u64 = Game::room_path_cost(idx_low, idx_high);
        let cost: u64 = c.get_cost();
        assert(step * cost <= 14000) by (nonlinear_arith)
            requires
                step <= 14,
                cost <= 1000,
        ;
        g.score = g.score + step * cost;
        g.moves = g.moves + 1;
        g
    }
}

/// The occupant of row `row` of room `c`.
pub open spec fn at(r: Seq<Option<Color>>, c: int, row: int) -> Option<Color> {
    r[4 * row + c]
}

/// Whether room `c` holds its own kind in every row from `row` down.
pub open spec fn home_from(r: Seq<Option<Color>>, c: int, row: int) -> bool {
    let t = Some(Color::of_idx(c));
    &&& row <= 0 ==> at(r, c, 0) == t
    &&& row <= 1 ==> at(r, c, 1) == t
    &&& row <= 2 ==> at(r, c, 2) == t
    &&& row <= 3 ==> at(r, c, 3) == t
}

/// 1 if row `row` of room `c` holds an amphipod that still has to leave
/// it, else 0.
pub open spec fn unsettled(r: Seq<Option<Color>>, c: int, row: int) -> int {
    if at(r, c, row) is Some && !home_from(r, c, row) {
        1
    } else {
        0
    }
}

/// The number of amphipods of room `c` that still have to leave their
/// slot.
pub open spec fn room_unsettled(r: Seq<Option<Color>>, c: int) -> int {
    unsettled(r, c, 0) + unsettled(r, c, 1) + unsettled(r, c, 2) + unsettled(r, c, 3)
}

#[verifier::opaque]
pub open spec fn rooms_unsettled(r: Seq<Option<Color>>) -> int {
    room_unsettled(r, 0) + room_unsettled(r, 1) + room_unsettled(r, 2) + room_unsettled(r, 3)
}

/// An upper bound on the number of moves that can still be made from a
/// position: one for each amphipod in the hallway, two for each that has
/// to leave its slot.
pub open spec fn measure(h: Seq<Option<Color>>, r: Seq<Option<Color>>) -> int {
    hall_taken(h) + 2 * rooms_unsettled(r)
}

pub open spec fn rank(g: GameView) -> nat {
    if measure(g.hall, g.rooms) >= 0 {
        measure(g.hall, g.rooms) as nat
    } else {
        0
    }
}

pub proof fn lemma_rank_bounds(g: GameView)
    ensures
        0 <= measure(g.hall, g.rooms) <= 39,
        rank(g) == measure(g.hall, g.rooms),
{
    reveal(rooms_unsettled);
    lemma_measure_bounds(g.hall, seq![]);
}

pub proof fn lemma_room_update(r: Seq<Option<Color>>, c: int, i: int, v: Option<Color>)
    requires
        r.len() == 16,
        0 <= c < 4,
        0 <= i < 16,
        i % 4 == c,
    ensures
        rooms_unsettled(r.update(i, v)) == rooms_unsettled(r) - room_unsettled(r, c)
            + room_unsettled(r.update(i, v), c),
{
    reveal(rooms_unsettled);
    let g = r.update(i, v);
    if c != 0 {
        assert(room_unsettled(g, 0) == room_unsettled(r, 0));
    }
    if c != 1 {
        assert(room_unsettled(g, 1) == room_unsettled(r, 1));
    }
    if c != 2 {
        assert(room_unsettled(g, 2) == room_unsettled(r, 2));
    }
    if c != 3 {
        assert(room_unsettled(g, 3) == room_unsettled(r, 3));
    }
}

pub open spec fn shaped(g: GameView) -> bool {
    g.hall.len() == 7 && g.rooms.len() == 16
}

/// A position from which every move can be counted without overflow.
pub open spec fn game_ok(g: GameView) -> bool {
    shaped(g) && g.score + 12000 * rank(g) <= u64::MAX && g.moves + rank(g) <= u32::MAX
}

/// What a position `x` reached from `g` by one move has of `g`.
pub open spec fn child_of(g: GameView, x: GameView) -> bool {
    shaped(x) && rank(x) < rank(g) && (game_ok(g) ==> game_ok(x))
}

pub proof fn lemma_step_cost(h_idx: int, r_idx: int, c: Color)
    requires
        0 <= h_idx < 7,
        0 <= r_idx < 16,
    ensures
        1 <= path_score_spec(h_idx, r_idx) * c.cost() <= 12000,
{
    let p = path_score_spec(h_idx, r_idx);
    let k = c.cost();
    assert(1 <= p <= 12);
    assert(1 <= p * k <= 12000) by (nonlinear_arith)
        requires
            1 <= p <= 12,
            1 <= k <= 1000,
    ;
}

/// Moving an amphipod home from the hallway takes at least one off the
/// measure.
pub proof fn lemma_take_step(g: GameView, c: int)
    requires
        shaped(g),
        0 <= c < 4,
        take_to_spec(g.rooms, c, 3) is Some,
        search_around_spec(g.hall, c) is Some,
    ensures
        ({
            let r_idx = take_to_spec(g.rooms, c, 3).unwrap() as int;
            let h_idx = search_around_spec(g.hall, c).unwrap() as int;
            &&& 0 <= r_idx < 16
            &&& 0 <= h_idx < 7
            &&& child_of(g, swap_hr_spec(g, h_idx, r_idx, Color::of_idx(c)))
        }),
{
    reveal_with_fuel(take_to_spec, 5);
    lemma_search_around(g.hall, c);
    let r_idx = take_to_spec(g.rooms, c, 3).unwrap() as int;
    let h_idx = search_around_spec(g.hall, c).unwrap() as int;
    let x = swap_hr_spec(g, h_idx, r_idx, Color::of_idx(c));
    assert(g.rooms[r_idx] is None);
    assert(r_idx % 4 == c);
    lemma_hall_update(g.hall, h_idx, g.rooms[r_idx]);
    lemma_room_update(g.rooms, c, r_idx, g.hall[h_idx]);
    assert(room_unsettled(x.rooms, c) <= room_unsettled(g.rooms, c));
    lemma_rank_bounds(g);
    lemma_rank_bounds(x);
    lemma_step_cost(h_idx, r_idx, Color::of_idx(c));
}

/// Moving an amphipod out of a room into a free spot takes one off the
/// measure.
pub proof fn lemma_punt_step(g: GameView, c: int, h_idx: int)
    requires
        shaped(g),
        0 <= c < 4,
        give_from_spec(g.rooms, c, 3, None) is Some,
        0 <= h_idx < 7,
        g.hall[h_idx] is None,
    ensures
        ({
            let r_idx = give_from_spec(g.rooms, c, 3, None).unwrap() as int;
            &&& 0 <= r_idx < 16
            &&& g.rooms[r_idx] is Some
            &&& child_of(g, swap_hr_spec(g, h_idx, r_idx, g.rooms[r_idx].unwrap()))
        }),
{
    reveal_with_fuel(give_from_spec, 5);
    let r_idx = give_from_spec(g.rooms, c, 3, None).unwrap() as int;
    assert(0 <= r_idx < 16 && r_idx % 4 == c);
    let x = swap_hr_spec(g, h_idx, r_idx, g.rooms[r_idx].unwrap());
    lemma_hall_update(g.hall, h_idx, g.rooms[r_idx]);
    lemma_room_update(g.rooms, c, r_idx, g.hall[h_idx]);
    assert(room_unsettled(x.rooms, c) + 1 == room_unsettled(g.rooms, c));
    lemma_rank_bounds(g);
    lemma_rank_bounds(x);
    lemma_step_cost(h_idx, r_idx, g.rooms[r_idx].unwrap());
}

/// The positions still to be looked at, the least energy of a finished
/// position found so far, and the positions met so far.
pub ghost struct WorldView {
    pub games: Seq<GameView>,
    pub min_score: u64,
    pub seen: Set<GameView>,
}

/// The world after `g` has been handed in: a position met before is
/// dropped, a new one is noted and put on top of those to be looked at.
pub open spec fn add_game_spec(w: WorldView, g: GameView) -> WorldView {
    if w.seen.contains(g) {
        w
    } else {
        WorldView { games: w.games.push(g), min_score: w.min_score, seen: w.seen.insert(g) }
    }
}

/// The first room, from `i` on, that may take an amphipod and whose
/// amphipod is found in the hallway.
pub open spec fn first_take(g: GameView, i: int) -> Option<int>
    decreases 4 - i,
{
    if i >= 4 {
        None
    } else if take_to_spec(g.rooms, i, 3) is Some && search_around_spec(g.hall, i) is Some {
        Some(i)
    } else {
        first_take(g, i + 1)
    }
}

pub proof fn lemma_first_take(g: GameView, i: int)
    requires
        0 <= i,
    ensures
        first_take(g, i) matches Some(c) ==> i <= c < 4 && take_to_spec(g.rooms, c, 3) is Some
            && search_around_spec(g.hall, c) is Some,
    decreases 4 - i,
{
    if i < 4 && !(take_to_spec(g.rooms, i, 3) is Some && search_around_spec(g.hall, i) is Some) {
        lemma_first_take(g, i + 1);
    }
}

/// The world after the amphipod that has to leave slot `r_idx` has been
/// tried on the free spots `spots`, from the `k`-th on.
pub open spec fn punt_spots(g: GameView, w: WorldView, r_idx: int, spots: Seq<usize>, k: int)
    -> WorldView
    decreases spots.len() - k,
{
    if k < 0 || k >= spots.len() {
        w
    } else {
        punt_spots(
            g,
            add_game_spec(w, swap_hr_spec(g, spots[k] as int, r_idx, g.rooms[r_idx].unwrap())),
            r_idx,
            spots,
            k + 1,
        )
    }
}

/// The world after the amphipods that have to leave the rooms from `c` on
/// have been tried on every free spot that they can reach.
pub open spec fn punt_rooms(g: GameView, w: WorldView, c: int) -> WorldView
    decreases 4 - c,
{
    if c < 0 || c >= 4 {
        w
    } else {
        match give_from_spec(g.rooms, c, 3, None) {
            Some(r_idx) => punt_rooms(
                g,
                punt_spots(g, w, r_idx as int, empty_around_spec(g.hall, c), 0),
                c + 1,
            ),
            None => punt_rooms(g, w, c + 1),
        }
    }
}

/// The world after position `g` has been looked at.
///
/// A position that has cost as much as the best finished one is given
/// up. A finished position sets the least energy. Else, if some room can
/// take its amphipod from the hallway, the position after that move is
/// handed in and no other (the first such room in room order). Else the
/// positions after every move out of a room are handed in, room by room.
pub open spec fn reproduce_spec(g: GameView, w: WorldView) -> WorldView {
    if !shaped(g) || w.min_score <= g.score {
        w
    } else if g.rooms == goal() {
        WorldView { games: w.games, min_score: g.score, seen: w.seen }
    } else {
        match first_take(g, 0) {
            Some(c) => add_game_spec(
                w,
                swap_hr_spec(
                    g,
                    search_around_spec(g.hall, c).unwrap() as int,
                    take_to_spec(g.rooms, c, 3).unwrap() as int,
                    Color::of_idx(c),
                ),
            ),
            None => punt_rooms(g, w, 0),
        }
    }
}

/// The positions that a move of the amphipod in slot `r_idx` to one of
/// the spots `spots`, from the `k`-th on, leads to.
pub open spec fn spot_kids(g: GameView, r_idx: int, spots: Seq<usize>, k: int) -> Seq<GameView>
    decreases spots.len() - k,
{
    if k < 0 || k >= spots.len() {
        seq![]
    } else {
        seq![swap_hr_spec(g, spots[k] as int, r_idx, g.rooms[r_idx].unwrap())] + spot_kids(
            g,
            r_idx,
            spots,
            k + 1,
        )
    }
}

/// The positions that a move out of one of the rooms from `c` on leads
/// to.
pub open spec fn room_kids(g: GameView, c: int) -> Seq<GameView>
    decreases 4 - c,
{
    if c < 0 || c >= 4 {
        seq![]
    } else {
        match give_from_spec(g.rooms, c, 3, None) {
            Some(r_idx) => spot_kids(g, r_idx as int, empty_around_spec(g.hall, c), 0) + room_kids(
                g,
                c + 1,
            ),
            None => room_kids(g, c + 1),
        }
    }
}

/// The positions that one move leads to from `g`. Where some room can
/// take its amphipod from the hallway, that is the one move (the first
/// such room in room order); else every amphipod that has to leave its
/// room may go to every free spot that it can reach. A finished position
/// has no move.
pub open spec fn kids(g: GameView) -> Seq<GameView> {
    if !shaped(g) || g.rooms == goal() {
        seq![]
    } else {
        match first_take(g, 0) {
            Some(c) => seq![
                swap_hr_spec(
                    g,
                    search_around_spec(g.hall, c).unwrap() as int,
                    take_to_spec(g.rooms, c, 3).unwrap() as int,
                    Color::of_idx(c),
                ),
            ],
            None => room_kids(g, 0),
        }
    }
}

/// The world after the positions `xs` have been handed in one after
/// another.
pub open spec fn add_all(w: WorldView, xs: Seq<GameView>) -> WorldView
    decreases xs.len(),
{
    if xs.len() == 0 {
        w
    } else {
        add_all(add_game_spec(w, xs[0]), xs.drop_first())
    }
}

pub proof fn lemma_add_all_joined(w: WorldView, a: Seq<GameView>, b: Seq<GameView>)
    ensures
        add_all(w, a + b) == add_all(add_all(w, a), b),
    decreases a.len(),
{
    if a.len() == 0 {
        assert(a + b =~= b);
    } else {
        assert((a + b).drop_first() =~= a.drop_first() + b);
        lemma_add_all_joined(add_game_spec(w, a[0]), a.drop_first(), b);
    }
}

pub proof fn lemma_punt_spots_kids(g: GameView, w: WorldView, r_idx: int, spots: Seq<usize>, k: int)
    ensures
        punt_spots(g, w, r_idx, spots, k) == add_all(w, spot_kids(g, r_idx, spots, k)),
    decreases spots.len() - k,
{
    if 0 <= k < spots.len() {
        let x = swap_hr_spec(g, spots[k] as int, r_idx, g.rooms[r_idx].unwrap());
        let all = spot_kids(g, r_idx, spots, k);
        assert(all.drop_first() =~= spot_kids(g, r_idx, spots, k + 1));
        lemma_punt_spots_kids(g, add_game_spec(w, x), r_idx, spots, k + 1);
    }
}

pub proof fn lemma_punt_rooms_kids(g: GameView, w: WorldView, c: int)
    ensures
        punt_rooms(g, w, c) == add_all(w, room_kids(g, c)),
    decreases 4 - c,
{
    if 0 <= c < 4 {
        match give_from_spec(g.rooms, c, 3, None) {
            Some(r_idx) => {
                let spots = empty_around_spec(g.hall, c);
                lemma_punt_spots_kids(g, w, r_idx as int, spots, 0);
                let w1 = punt_spots(g, w, r_idx as int, spots, 0);
                lemma_punt_rooms_kids(g, w1, c + 1);
                lemma_add_all_joined(w, spot_kids(g, r_idx as int, spots, 0), room_kids(g, c + 1));
            },
            None => {
                lemma_punt_rooms_kids(g, w, c + 1);
            },
        }
    }
}

/// Looking at a position that is neither given up nor finished hands in
/// the positions that one move leads to.
pub proof fn lemma_reproduce_kids(g: GameView, w: WorldView)
    requires
        shaped(g),
        w.min_score > g.score,
        g.rooms != goal(),
    ensures
        reproduce_spec(g, w) == add_all(w, kids(g)),
{
    match first_take(g, 0) {
        Some(c) => {
            let x = kids(g)[0];
            assert(kids(g).drop_first() =~= Seq::<GameView>::empty());
            assert(add_all(add_game_spec(w, x), kids(g).drop_first()) == add_game_spec(w, x));
        },
        None => {
            lemma_punt_rooms_kids(g, w, 0);
        },
    }
}

/// Every position that one move leads to lies nearer the end, and has
/// cost no less.
pub proof fn lemma_spot_kids(g: GameView, c: int, spots: Seq<usize>, k: int, j: int)
    requires
        shaped(g),
        0 <= c < 4,
        give_from_spec(g.rooms, c, 3, None) is Some,
        forall|i: int| 0 <= i < spots.len() ==> spots[i] < 7 && g.hall[spots[i] as int] is None,
        0 <= j < spot_kids(g, give_from_spec(g.rooms, c, 3, None).unwrap() as int, spots, k).len(),
    ensures
        ({
            let x = spot_kids(g, give_from_spec(g.rooms, c, 3, None).unwrap() as int, spots, k)[j];
            child_of(g, x) && (game_ok(g) ==> x.score >= g.score)
        }),
    decreases spots.len() - k,
{
    if 0 <= k < spots.len() {
        let r_idx = give_from_spec(g.rooms, c, 3, None).unwrap() as int;
        if j == 0 {
            lemma_punt_step(g, c, spots[k] as int);
            lemma_step_cost(spots[k] as int, r_idx, g.rooms[r_idx].unwrap());
            lemma_rank_bounds(g);
        } else {
            lemma_spot_kids(g, c, spots, k + 1, j - 1);
        }
    }
}

pub proof fn lemma_room_kids(g: GameView, c: int, j: int)
    requires
        shaped(g),
        0 <= c,
        0 <= j < room_kids(g, c).len(),
    ensures
        child_of(g, room_kids(g, c)[j]),
        game_ok(g) ==> room_kids(g, c)[j].score >= g.score,
    decreases 4 - c,
{
    if c < 4 {
        match give_from_spec(g.rooms, c, 3, None) {
            Some(r_idx) => {
                let spots = empty_around_spec(g.hall, c);
                lemma_empty_around(g.hall, c);
                let first = spot_kids(g, r_idx as int, spots, 0);
                if j < first.len() {
                    lemma_spot_kids(g, c, spots, 0, j);
                } else {
                    lemma_room_kids(g, c + 1, j - first.len());
                }
            },
            None => {
                lemma_room_kids(g, c + 1, j);
            },
        }
    }
}

pub proof fn lemma_kids(g: GameView, j: int)
    requires
        0 <= j < kids(g).len(),
    ensures
        child_of(g, kids(g)[j]),
        game_ok(g) ==> kids(g)[j].score >= g.score,
{
    match first_take(g, 0) {
        Some(c) => {
            lemma_first_take(g, 0);
            lemma_take_step(g, c);
            lemma_step_cost(
                search_around_spec(g.hall, c).unwrap() as int,
                take_to_spec(g.rooms, c, 3).unwrap() as int,
                Color::of_idx(c),
            );
            lemma_rank_bounds(g);
        },
        None => {
            lemma_room_kids(g, 0, j);
        },
    }
}

/// The least energy at the end of a play from `g`, `None` when no play
/// brings every amphipod home: what `g` has cost when it is finished,
/// else the least over the positions that one move leads to.
pub open spec fn outcome(g: GameView) -> Option<int>
    decreases rank(g), 1int, 0int,
{
    if !shaped(g) {
        None
    } else if g.rooms == goal() {
        Some(g.score as int)
    } else {
        least_kid(g, kids(g).len() as int)
    }
}

/// The least energy at the end of a play that begins with one of the
/// first `k` moves.
pub open spec fn least_kid(g: GameView, k: int) -> Option<int>
    decreases rank(g), 0int, k,
{
    if k <= 0 || k > kids(g).len() {
        None
    } else {
        proof {
            lemma_kids(g, k - 1);
        }
        opt_min(least_kid(g, k - 1), outcome(kids(g)[k - 1]))
    }
}

/// The least energy at the end of a play from one of the positions `s`.
pub open spec fn least_in(s: Seq<GameView>) -> Option<int>
    decreases s.len(),
{
    if s.len() == 0 {
        None
    } else {
        opt_min(least_in(s.drop_last()), outcome(s.last()))
    }
}

/// What the search is to find: the least energy known, or that of a
/// play from a position that waits if that is less.
pub open spec fn target_of(w: WorldView) -> int {
    match least_in(w.games) {
        Some(v) => if v < w.min_score {
            v
        } else {
            w.min_score as int
        },
        None => w.min_score as int,
    }
}

pub proof fn lemma_least_kid_le(g: GameView, k: int, j: int)
    requires
        0 <= j < k <= kids(g).len(),
        outcome(kids(g)[j]) is Some,
    ensures
        least_kid(g, k) matches Some(v) && v <= outcome(kids(g)[j]).unwrap(),
    decreases k,
{
    if j < k - 1 {
        lemma_least_kid_le(g, k - 1, j);
    }
}

pub proof fn lemma_least_kid_attained(g: GameView, k: int) -> (j: int)
    requires
        least_kid(g, k) is Some,
    ensures
        0 <= j < k <= kids(g).len(),
        outcome(kids(g)[j]) == least_kid(g, k),
    decreases k,
{
    if outcome(kids(g)[k - 1]) == least_kid(g, k) {
        k - 1
    } else {
        lemma_least_kid_attained(g, k - 1)
    }
}

pub proof fn lemma_least_in_le(s: Seq<GameView>, i: int)
    requires
        0 <= i < s.len(),
        outcome(s[i]) is Some,
    ensures
        least_in(s) matches Some(v) && v <= outcome(s[i]).unwrap(),
    decreases s.len(),
{
    if i < s.len() - 1 {
        lemma_least_in_le(s.drop_last(), i);
    }
}

pub proof fn lemma_least_in_attained(s: Seq<GameView>) -> (i: int)
    requires
        least_in(s) is Some,
    ensures
        0 <= i < s.len(),
        outcome(s[i]) == least_in(s),
    decreases s.len(),
{
    if outcome(s.last()) == least_in(s) {
        s.len() - 1
    } else {
        lemma_least_in_attained(s.drop_last())
    }
}

/// No play ends with less than the position that it starts from has
/// cost.
pub proof fn lemma_outcome_score(g: GameView)
    requires
        game_ok(g),
    ensures
        outcome(g) matches Some(v) ==> v >= g.score,
    decreases rank(g),
{
    if shaped(g) && g.rooms != goal() && outcome(g) is Some {
        let j = lemma_least_kid_attained(g, kids(g).len() as int);
        lemma_kids(g, j);
        lemma_outcome_score(kids(g)[j]);
    }
}

/// Whether a position that has been met is taken care of: it waits, or
/// it has cost as much as the best finished one, or every position that
/// one move leads to from it has been met.
pub open spec fn cared_for(w: WorldView, s: GameView) -> bool {
    w.games.contains(s) || w.min_score <= s.score || (s.rooms != goal() && forall|j: int|
        0 <= j < kids(s).len() ==> w.seen.contains(#[trigger] kids(s)[j]))
}

/// Whether the world is in order: every position that waits has been
/// met, and every position that has been met can be counted without
/// overflow and is taken care of.
pub open spec fn tidy(w: WorldView) -> bool {
    &&& forall|i: int| 0 <= i < w.games.len() ==> w.seen.contains(#[trigger] w.games[i])
    &&& forall|s: GameView| #[trigger] w.seen.contains(s) ==> game_ok(s) && cared_for(w, s)
}

/// In a world in order the target is no more than the least energy at
/// the end of a play from any position that has been met.
pub proof fn lemma_accounted(w: WorldView, s: GameView)
    requires
        tidy(w),
        w.seen.contains(s),
        outcome(s) is Some,
    ensures
        target_of(w) <= outcome(s).unwrap(),
    decreases rank(s),
{
    assert(game_ok(s) && cared_for(w, s));
    if w.games.contains(s) {
        let i = choose|i: int| 0 <= i < w.games.len() && w.games[i] == s;
        lemma_least_in_le(w.games, i);
    } else if w.min_score <= s.score {
        lemma_outcome_score(s);
    } else {
        let j = lemma_least_kid_attained(s, kids(s).len() as int);
        lemma_kids(s, j);
        assert(w.seen.contains(kids(s)[j]));
        lemma_accounted(w, kids(s)[j]);
    }
}

/// Handing in positions keeps the least energy and the positions that
/// waited; those that wait after them are the new ones among those handed
/// in, and all that were handed in have then been met.
pub proof fn lemma_add_all(w: WorldView, xs: Seq<GameView>)
    ensures
        add_all(w, xs).min_score == w.min_score,
        w.games.len() <= add_all(w, xs).games.len(),
        forall|i: int| 0 <= i < w.games.len() ==> add_all(w, xs).games[i] == #[trigger] w.games[i],
        forall|i: int|
            w.games.len() <= i < add_all(w, xs).games.len() ==> xs.contains(
                #[trigger] add_all(w, xs).games[i],
            ),
        forall|s: GameView|
            #[trigger] add_all(w, xs).seen.contains(s) <==> w.seen.contains(s) || xs.contains(s),
        (forall|i: int| 0 <= i < w.games.len() ==> w.seen.contains(#[trigger] w.games[i]))
            ==> forall|i: int|
            0 <= i < add_all(w, xs).games.len() ==> add_all(w, xs).seen.contains(
                #[trigger] add_all(w, xs).games[i],
            ),
        forall|s: GameView|
            #[trigger] xs.contains(s) && !w.seen.contains(s) ==> add_all(w, xs).games.contains(s),
    decreases xs.len(),
{
    if xs.len() > 0 {
        let w1 = add_game_spec(w, xs[0]);
        let rest = xs.drop_first();
        lemma_add_all(w1, rest);
        let w2 = add_all(w, xs);
        assert(w2 == add_all(w1, rest));
        assert forall|s: GameView| #[trigger] xs.contains(s) && !w.seen.contains(s) implies w2.games.contains(
            s,
        ) by {
            let k = choose|k: int| 0 <= k < xs.len() && xs[k] == s;
            if w1.seen.contains(s) {
                assert(s == xs[0]);
                assert(w1.games[w.games.len() as int] == s);
                assert(w2.games[w.games.len() as int] == w1.games[w.games.len() as int]);
            } else {
                assert(k > 0);
                assert(rest[k - 1] == s);
                assert(rest.contains(s));
            }
        }
        assert forall|i: int| 0 <= i < w.games.len() implies w2.games[i] == #[trigger] w.games[i] by {
            assert(w1.games[i] == w.games[i]);
        }
        assert forall|i: int| w.games.len() <= i < w2.games.len() implies xs.contains(
            #[trigger] w2.games[i],
        ) by {
            if i < w1.games.len() {
                assert(w2.games[i] == w1.games[i]);
                assert(w1.games[i] == xs[0]);
            } else {
                assert(rest.contains(w2.games[i]));
                let k = choose|k: int| 0 <= k < rest.len() && rest[k] == w2.games[i];
                assert(xs[k + 1] == w2.games[i]);
            }
        }
        assert forall|s: GameView| #[trigger]
            w2.seen.contains(s) <==> w.seen.contains(s) || xs.contains(s) by {
            if rest.contains(s) {
                let k = choose|k: int| 0 <= k < rest.len() && rest[k] == s;
                assert(xs[k + 1] == s);
            }
            if xs.contains(s) {
                let k = choose|k: int| 0 <= k < xs.len() && xs[k] == s;
                if k > 0 {
                    assert(rest[k - 1] == s);
                } else {
                    assert(w1.seen.contains(s));
                }
            }
        }
    }
}

/// `w2` holds the positions of `w` and after them at most `n` more, each
/// reached from `g` by one move.
pub open spec fn extends(w: WorldView, w2: WorldView, g: GameView, n: int) -> bool {
    &&& w.games.len() <= w2.games.len() <= w.games.len() + n
    &&& forall|i: int| 0 <= i < w.games.len() ==> w2.games[i] == w.games[i]
    &&& forall|i: int| w.games.len() <= i < w2.games.len() ==> child_of(g, #[trigger] w2.games[i])
}

pub proof fn lemma_punt_spots(g: GameView, w: WorldView, c: int, spots: Seq<usize>, k: int)
    requires
        shaped(g),
        0 <= c < 4,
        give_from_spec(g.rooms, c, 3, None) is Some,
        0 <= k <= spots.len(),
        forall|j: int| 0 <= j < spots.len() ==> spots[j] < 7 && g.hall[spots[j] as int] is None,
    ensures
        extends(
            w,
            punt_spots(g, w, give_from_spec(g.rooms, c, 3, None).unwrap() as int, spots, k),
            g,
            spots.len() - k,
        ),
    decreases spots.len() - k,
{
    if k < spots.len() {
        let r_idx = give_from_spec(g.rooms, c, 3, None).unwrap() as int;
        lemma_punt_step(g, c, spots[k] as int);
        let x = swap_hr_spec(g, spots[k] as int, r_idx, g.rooms[r_idx].unwrap());
        let w1 = add_game_spec(w, x);
        lemma_punt_spots(g, w1, c, spots, k + 1);
    }
}

pub proof fn lemma_punt_rooms(g: GameView, w: WorldView, c: int)
    requires
        shaped(g),
        0 <= c <= 4,
    ensures
        extends(w, punt_rooms(g, w, c), g, 7 * (4 - c)),
    decreases 4 - c,
{
    if c < 4 {
        match give_from_spec(g.rooms, c, 3, None) {
            Some(r_idx) => {
                let spots = empty_around_spec(g.hall, c);
                lemma_empty_around(g.hall, c);
                crate::hallway::lemma_left_empty(g.hall, c + 1);
                crate::hallway::lemma_right_empty(g.hall, c + 2);
                assert(spots.len() <= 7);
                lemma_punt_spots(g, w, c, spots, 0);
                let w1 = punt_spots(g, w, r_idx as int, spots, 0);
                lemma_punt_rooms(g, w1, c + 1);
            },
            None => {
                lemma_punt_rooms(g, w, c + 1);
            },
        }
    }
}

/// Looking at a position hands in at most 28 positions, each reached from
/// it by one move, and leaves those that were waiting as they were.
pub proof fn lemma_reproduce(g: GameView, w: WorldView)
    ensures
        extends(w, reproduce_spec(g, w), g, 28),
{
    if !shaped(g) || w.min_score <= g.score {
    } else if g.rooms == goal() {
    } else {
        match first_take(g, 0) {
            Some(c) => {
                lemma_first_take(g, 0);
                lemma_take_step(g, c);
            },
            None => {
                lemma_punt_rooms(g, w, 0);
            },
        }
    }
}

pub open spec fn pow29(n: nat) -> nat
    decreases n,
{
    if n == 0 {
        1
    } else {
        29 * pow29((n - 1) as nat)
    }
}

pub proof fn lemma_pow29_monotonic(a: nat, b: nat)
    requires
        a <= b,
    ensures
        0 < pow29(a) <= pow29(b),
    decreases b,
{
    if a < b {
        lemma_pow29_monotonic(a, (b - 1) as nat);
    } else if a > 0 {
        lemma_pow29_monotonic((a - 1) as nat, (a - 1) as nat);
    }
}

/// The weight of the positions that wait: it falls with every position
/// looked at.
pub open spec fn weight(s: Seq<GameView>) -> nat
    decreases s.len(),
{
    if s.len() == 0 {
        0
    } else {
        weight(s.drop_last()) + pow29(rank(s.last()))
    }
}

pub proof fn lemma_weight_extends(base: Seq<GameView>, all: Seq<GameView>, m: nat)
    requires
        base.len() <= all.len(),
        forall|i: int| 0 <= i < base.len() ==> all[i] == base[i],
        forall|i: int| base.len() <= i < all.len() ==> rank(#[trigger] all[i]) <= m,
    ensures
        weight(all) <= weight(base) + (all.len() - base.len()) * pow29(m),
    decreases all.len(),
{
    if all.len() == base.len() {
        assert(all =~= base);
    } else {
        let head = all.drop_last();
        lemma_weight_extends(base, head, m);
        assert(rank(all[all.len() - 1]) <= m);
        lemma_pow29_monotonic(rank(all.last()), m);
        let k = all.len() - base.len();
        let p = pow29(m);
        assert((k - 1) * p + p == k * p) by (nonlinear_arith);
    }
}

/// Looking at the position on top makes the waiting positions weigh less.
pub proof fn lemma_weight_falls(g: GameView, w: WorldView)
    ensures
        weight(reproduce_spec(g, w).games) < weight(w.games.push(g)),
{
    let w2 = reproduce_spec(g, w);
    lemma_reproduce(g, w);
    assert(w.games.push(g).drop_last() =~= w.games);
    lemma_pow29_monotonic(0, rank(g));
    if w2.games.len() == w.games.len() {
        assert(w2.games =~= w.games);
    } else {
        assert(child_of(g, w2.games[w.games.len() as int]));
        let m = (rank(g) - 1) as nat;
        lemma_weight_extends(w.games, w2.games, m);
        let k = w2.games.len() - w.games.len();
        let p = pow29(m);
        lemma_pow29_monotonic(0, m);
        assert(k * p <= 28 * p) by (nonlinear_arith)
            requires
                0 <= k <= 28,
                p > 0,
        ;
    }
}

/// The least energy of a finished position once every waiting position
/// has been looked at, the one handed in last first.
pub open spec fn run_spec(w: WorldView) -> u64
    decreases weight(w.games),
{
    if w.games.len() == 0 {
        w.min_score
    } else {
        let rest = WorldView {
            games: w.games.drop_last(),
            min_score: w.min_score,
            seen: w.seen,
        };
        proof {
            lemma_weight_falls(w.games.last(), rest);
            assert(rest.games.push(w.games.last()) =~= w.games);
        }
        run_spec(reproduce_spec(w.games.last(), rest))
    }
}

pub proof fn lemma_target_le(w: WorldView, i: int)
    requires
        0 <= i < w.games.len(),
        outcome(w.games[i]) is Some,
    ensures
        target_of(w) <= outcome(w.games[i]).unwrap(),
{
    lemma_least_in_le(w.games, i);
}

/// Looking at the position on top keeps the world in order and the
/// target as it was.
pub proof fn lemma_step(w: WorldView)
    requires
        w.games.len() > 0,
        tidy(w),
    ensures
        ({
            let rest = WorldView {
                games: w.games.drop_last(),
                min_score: w.min_score,
                seen: w.seen,
            };
            let w2 = reproduce_spec(w.games.last(), rest);
            tidy(w2) && target_of(w2) == target_of(w)
        }),
{
    let g = w.games.last();
    let n = w.games.len() - 1;
    let rest = WorldView { games: w.games.drop_last(), min_score: w.min_score, seen: w.seen };
    let w2 = reproduce_spec(g, rest);
    assert(w.seen.contains(w.games[n]));
    assert(game_ok(g) && cared_for(w, g));
    let grows = rest.min_score > g.score && g.rooms != goal();
    if grows {
        lemma_reproduce_kids(g, rest);
        lemma_add_all(rest, kids(g));
    }
    assert(w2.min_score <= w.min_score);
    assert(rest.games.len() <= w2.games.len());
    assert forall|i: int| 0 <= i < n implies w2.games[i] == #[trigger] w.games[i] by {
        assert(rest.games[i] == w.games[i]);
    }
    assert forall|s: GameView| w.seen.contains(s) implies #[trigger] w2.seen.contains(s) by {}
    assert forall|i: int| 0 <= i < w2.games.len() implies w2.seen.contains(
        #[trigger] w2.games[i],
    ) by {
        if !grows {
            assert(w2.games[i] == w.games[i]);
        } else {
            assert forall|k: int| 0 <= k < rest.games.len() implies rest.seen.contains(
                #[trigger] rest.games[k],
            ) by {
                assert(rest.games[k] == w.games[k]);
            }
        }
    }
    assert forall|s: GameView| #[trigger] w2.seen.contains(s) implies game_ok(s) && cared_for(
        w2,
        s,
    ) by {
        if s == g {
            if grows {
                assert forall|j: int| 0 <= j < kids(g).len() implies w2.seen.contains(
                    #[trigger] kids(g)[j],
                ) by {
                    assert(kids(g).contains(kids(g)[j]));
                }
            }
        } else if w.seen.contains(s) {
            assert(cared_for(w, s));
            if w.games.contains(s) {
                let i = choose|i: int| 0 <= i < w.games.len() && w.games[i] == s;
                assert(i < n);
                assert(w2.games[i] == s);
            } else if w.min_score <= s.score {
            } else {
                assert forall|j: int| 0 <= j < kids(s).len() implies w2.seen.contains(
                    #[trigger] kids(s)[j],
                ) by {
                    assert(w.seen.contains(kids(s)[j]));
                }
            }
        } else {
            assert(grows);
            assert(kids(g).contains(s));
            let j = choose|j: int| 0 <= j < kids(g).len() && kids(g)[j] == s;
            lemma_kids(g, j);
            assert(w2.games.contains(s));
        }
    }
    assert(tidy(w2));
    // the target has not risen
    if target_of(w) != w.min_score {
        let i = lemma_least_in_attained(w.games);
        if i < n {
            assert(w2.games[i] == w.games[i]);
            lemma_target_le(w2, i);
        } else {
            lemma_accounted(w2, g);
        }
    }
    assert(target_of(w2) <= target_of(w));
    // nor has it fallen
    if target_of(w2) != w2.min_score {
        let i = lemma_least_in_attained(w2.games);
        if i < n {
            assert(w2.games[i] == w.games[i]);
            lemma_target_le(w, i);
        } else {
            assert(grows);
            assert(kids(g).contains(w2.games[i]));
            let j = choose|j: int| 0 <= j < kids(g).len() && kids(g)[j] == w2.games[i];
            lemma_least_kid_le(g, kids(g).len() as int, j);
            lemma_target_le(w, n);
        }
    } else if w2.min_score != w.min_score {
        assert(outcome(g) == Some(g.score as int));
        lemma_target_le(w, n);
    }
    assert(target_of(w) <= target_of(w2));
}

/// The search ends with the target of the world that it starts from.
pub proof fn lemma_run(w: WorldView)
    requires
        tidy(w),
    ensures
        run_spec(w) == target_of(w),
    decreases weight(w.games),
{
    if w.games.len() > 0 {
        let rest = WorldView { games: w.games.drop_last(), min_score: w.min_score, seen: w.seen };
        lemma_step(w);
        lemma_weight_falls(w.games.last(), rest);
        assert(rest.games.push(w.games.last()) =~= w.games);
        lemma_run(reproduce_spec(w.games.last(), rest));
    }
}

/// The least energy that brings every amphipod home from a position that
/// has cost nothing yet; `u64::MAX` stands for no way at all.
pub open spec fn least_energy(hall: Seq<Option<Color>>, rooms: Seq<Option<Color>>) -> u64 {
    match outcome(GameView { hall, rooms, score: 0, moves: 0 }) {
        Some(v) => if v < u64::MAX {
            v as u64
        } else {
            u64::MAX
        },
        None => u64::MAX,
    }
}

/// The views of a list of positions.
pub open spec fn views(s: Seq<Game>) -> Seq<GameView> {
    s.map_values(|g: Game| g@)
}

pub open spec fn all_ok(s: Seq<GameView>) -> bool {
    forall|i: int| 0 <= i < s.len() ==> game_ok(#[trigger] s[i])
}

/// The world of the search. The positions met so far are kept in
/// shelves, each under the identifier of its positions.
pub struct World {
    pub games: Vec<Game>,
    pub min_score: u64,
    pub seen: HashMap<u64, Vec<Game>>,
}

/// The identifier under which a position is shelved.
pub open spec fn shelf_of(g: GameView) -> u64 {
    cells_id(g.hall + g.rooms) as u64
}

/// The positions that the shelves hold, each looked for on its own
/// shelf.
pub open spec fn shelved(m: Map<u64, Vec<Game>>) -> Set<GameView> {
    Set::new(|g: GameView| m.contains_key(shelf_of(g)) && views(m[shelf_of(g)]@).contains(g))
}

impl View for World {
    type V = WorldView;

    open spec fn view(&self) -> WorldView {
        WorldView {
            games: views(self.games@),
            min_score: self.min_score,
            seen: shelved(self.seen@),
        }
    }
}

fn same_cells<const N: usize>(a: &[Option<Color>; N], b: &[Option<Color>; N]) -> (r: bool)
    ensures
        r == (a@ == b@),
{
    let mut i: usize = 0;
    while i < N
        invariant
            i <= N,
            forall|j: int| 0 <= j < i ==> a@[j] == b@[j],
        decreases N - i,
    {
        if a[i] != b[i] {
            assert(a@[i as int] != b@[i as int]);
            return false;
        }
        i = i + 1;
    }
    assert(a@ =~= b@);
    true
}

fn same_game(a: &Game, b: &Game) -> (r: bool)
    ensures
        r == (a@ == b@),
{
    same_cells(&a.hall, &b.hall) && same_cells(&a.rooms, &b.rooms) && a.score == b.score
        && a.moves == b.moves
}

impl World {
    /// A world in which nothing has been met.
    pub fn new() -> (w: World)
        ensures
            w@ == (WorldView { games: seq![], min_score: u64::MAX, seen: Set::empty() }),
    {
        let w = World { games: Vec::new(), min_score: u64::MAX, seen: HashMap::new() };
        assert(w@.games =~= seq![]);
        assert(w@.seen =~= Set::empty());
        w
    }

    /// The world after the position has been handed in.
    pub fn with_game(self, g: Game) -> (w: World)
        ensures
            w@ == add_game_spec(self@, g@),
    {
        let mut w = self;
        w.add_game(g);
        w
    }

    /// Hands in a position: one met before is dropped, a new one is noted
    /// and waits on top of the others.
    pub fn add_game(&mut self, g: Game)
        ensures
            final(self)@ == add_game_spec(old(self)@, g@),
    {
        let id = g.unique_id();
        assert(id == shelf_of(g@));
        let ghost m0 = self.seen@;
        let mut shelf: Vec<Game> = match self.seen.remove(&id) {
            Some(s) => s,
            None => Vec::new(),
        };
        let ghost s0 = shelf@;
        assert(m0.contains_key(id) ==> m0[id]@ == s0);
        assert(!m0.contains_key(id) ==> s0.len() == 0);
        let mut found = false;
        let mut i: usize = 0;
        while i < shelf.len() && !found
            invariant
                i <= shelf.len(),
                shelf@ == s0,
                found ==> views(s0).contains(g@),
                !found ==> forall|j: int| 0 <= j < i ==> views(s0)[j] != g@,
            decreases shelf.len() - i,
        {
            found = same_game(&shelf[i], &g);
            assert(found ==> views(s0)[i as int] == g@);
            i = i + 1;
        }
        if !found {
            assert(!views(s0).contains(g@));
            shelf.push(g);
            let ghost before = self.games@;
            self.games.push(g);
            assert(views(self.games@) =~= views(before).push(g@));
            assert(views(shelf@) =~= views(s0).push(g@));
        }
        let ghost s1 = shelf@;
        self.seen.insert(id, shelf);
        proof {
            let m2 = self.seen@;
            assert(m2 =~= m0.insert(id, m2[id]));
            assert(m2[id]@ == s1);
            assert forall|x: GameView| shelved(m2).contains(x) <==> (shelved(m0).contains(x) || (
            !found && x == g@)) by {
                if shelf_of(x) == id {
                    if found {
                        assert(views(s1) == views(s0));
                    } else {
                        assert(views(s1) =~= views(s0).push(g@));
                        if views(s1).contains(x) {
                            let k = choose|k: int| 0 <= k < views(s1).len() && views(s1)[k] == x;
                            if k < s0.len() {
                                assert(views(s0)[k] == x);
                            }
                        }
                        if views(s0).contains(x) {
                            let k = choose|k: int| 0 <= k < views(s0).len() && views(s0)[k] == x;
                            assert(views(s1)[k] == x);
                        }
                        if x == g@ {
                            assert(views(s1)[s0.len() as int] == x);
                        }
                    }
                } else {
                    assert(m2.contains_key(shelf_of(x)) == m0.contains_key(shelf_of(x)));
                }
            }
            if found {
                assert(shelved(m0).contains(g@));
                assert(shelved(m2) =~= shelved(m0));
            } else {
                assert(!shelved(m0).contains(g@));
                assert(shelved(m2) =~= shelved(m0).insert(g@));
            }
        }
    }

    /// Looks at the waiting positions until none is left, and returns the
    /// least energy of a finished position (`u64::MAX` if there is none).
    pub fn run(self) -> (r: u64)
        requires
            all_ok(self@.games),
        ensures
            r == run_spec(self@),
    {
        let mut w = self;
        while w.games.len() > 0
            invariant
                all_ok(w@.games),
                run_spec(w@) == run_spec(self@),
            decreases weight(w@.games),
        {
            let ghost before = w@;
            let g = match w.games.pop() {
                Some(g) => g,
                None => {
                    return w.min_score;
                },
            };
            proof {
                assert(views(w.games@) =~= before.games.drop_last());
                assert(g@ == before.games.last());
                assert(game_ok(before.games[before.games.len() - 1]));
                lemma_weight_falls(g@, w@);
                assert(w@.games.push(g@) =~= before.games);
                lemma_reproduce(g@, w@);
                let w2 = reproduce_spec(g@, w@);
                assert forall|i: int| 0 <= i < w2.games.len() implies game_ok(
                    #[trigger] w2.games[i],
                ) by {
                    if i < w@.games.len() {
                        assert(w2.games[i] == before.games[i]);
                    } else {
                        assert(child_of(g@, w2.games[i]));
                    }
                }
            }
            g.reproduce(&mut w);
        }
        w.min_score
    }
}

impl Game {
    /// Looks at this position on behalf of `world_in`.
    pub fn reproduce(self, world_in: &mut World)
        requires
            game_ok(self@),
        ensures
            final(world_in)@ == reproduce_spec(self@, old(world_in)@),
    {
        if world_in.min_score <= self.score {
            return ;
        }
        if self.is_winning() {
            world_in.min_score = self.score;
            return ;
        }
        let ghost w0 = world_in@;
        let mut c: usize = 0;
        while c < 4
            invariant
                c <= 4,
                game_ok(self@),
                first_take(self@, 0) == first_take(self@, c as int),
                world_in@ == w0,
                w0 == old(world_in)@,
                !(w0.min_score <= self.score),
                self.rooms@ != goal(),
            decreases 4 - c,
        {
            match self.get_take_to_idx(c) {
                Some(r_idx) => {
                    match search_hall_around(&self.hall, c) {
                        Some(h_idx) => {
                            proof {
                                lemma_take_step(self@, c as int);
                                lemma_step_cost(
                                    h_idx as int,
                                    r_idx as int,
                                    Color::of_idx(c as int),
                                );
                                lemma_rank_bounds(self@);
                            }
                            let target = Color::from_idx(c);
                            world_in.add_game(self.with_swap_hr(h_idx, r_idx, target));
                            return ;
                        },
                        None => {},
                    }
                },
                None => {},
            }
            c = c + 1;
        }
        let mut c: usize = 0;
        while c < 4
            invariant
                c <= 4,
                game_ok(self@),
                first_take(self@, 0) is None,
                w0 == old(world_in)@,
                !(w0.min_score <= self.score),
                self.rooms@ != goal(),
                punt_rooms(self@, world_in@, c as int) == punt_rooms(self@, w0, 0),
            decreases 4 - c,
        {
            match self.get_give_from_idx(c) {
                Some(r_idx) => {
                    let spots = find_empty_hall_around(&self.hall, c);
                    let ghost w1 = world_in@;
                    proof {
                        lemma_empty_around(self.hall@, c as int);
                    }
                    let mut k: usize = 0;
                    while k < spots.len()
                        invariant
                            k <= spots.len(),
                            c < 4,
                            game_ok(self@),
                            give_from_spec(self.rooms@, c as int, 3, None) == Some(r_idx),
                            spots@ == empty_around_spec(self.hall@, c as int),
                            forall|j: int|
                                0 <= j < spots.len() ==> {
                                    let h = #[trigger] spots@[j];
                                    0 <= h < 7 && self.hall@[h as int] is None
                                },
                            punt_spots(self@, world_in@, r_idx as int, spots@, k as int)
                                == punt_spots(self@, w1, r_idx as int, spots@, 0),
                        decreases spots.len() - k,
                    {
                        let h_idx: usize = spots[k];
                        assert(0 <= spots@[k as int] < 7 && self.hall@[spots@[k as int] as int] is None);
                        proof {
                            lemma_punt_step(self@, c as int, h_idx as int);
                            lemma_rank_bounds(self@);
                        }
                        let move_color = match self.rooms[r_idx] {
                            Some(t) => t,
                            None => Color::Amber,
                        };
                        proof {
                            lemma_step_cost(h_idx as int, r_idx as int, move_color);
                        }
                        world_in.add_game(self.with_swap_hr(h_idx, r_idx, move_color));
                        k = k + 1;
                    }
                },
                None => {},
            }
            c = c + 1;
        }
    }
}

/// The least energy that the search finds for bringing every amphipod of
/// the large burrow home, `u64::MAX` if it finds no way.
pub fn best_score(hall: [Option<Color>; 7], rooms: [Option<Color>; 16]) -> (r: u64)
    ensures
        r == least_energy(hall@, rooms@),
        r == run_spec(
            add_game_spec(
                WorldView { games: seq![], min_score: u64::MAX, seen: Set::empty() },
                GameView { hall: hall@, rooms: rooms@, score: 0, moves: 0 },
            ),
        ),
{
    let start = Game { hall, rooms, score: 0, moves: 0 };
    proof {
        lemma_rank_bounds(start@);
    }
    let w = World::new().with_game(start);
    assert(w@.games =~= seq![start@]);
    proof {
        assert(w@.games[0] == start@);
        assert(w@.games.contains(start@));
        assert(tidy(w@));
        lemma_run(w@);
        assert(w@.games.drop_last() =~= Seq::<GameView>::empty());
        assert(least_in(Seq::<GameView>::empty()) is None);
        assert(w@.games.last() == start@);
        assert(least_in(w@.games) == outcome(start@));
    }
    w.run()
}

/// The two rows that are put between the upper and the lower row of the
/// small burrow.
pub open spec fn middle_rows() -> Seq<Option<Color>> {
    seq![
        Some(Color::Desert),
        Some(Color::Copper),
        Some(Color::Bronze),
        Some(Color::Amber),
        Some(Color::Desert),
        Some(Color::Bronze),
        Some(Color::Amber),
        Some(Color::Copper),
    ]
}

/// Unfolds the diagram: the rooms of the large burrow are those of the
/// small one with two more rows in the middle.
pub fn p2_alter_rooms(rooms: [Option<Color>; 8]) -> (ret: [Option<Color>; 16])
    ensures
        ret@ == rooms@.subrange(0, 4) + middle_rows() + rooms@.subrange(4, 8),
{
    let ret: [Option<Color>; 16] = [
        rooms[0],
        rooms[1],
        rooms[2],
        rooms[3],
        Some(Color::Desert),
        Some(Color::Copper),
        Some(Color::Bronze),
        Some(Color::Amber),
        Some(Color::Desert),
        Some(Color::Bronze),
        Some(Color::Amber),
        Some(Color::Copper),
        rooms[4],
        rooms[5],
        rooms[6],
        rooms[7],
    ];
    assert(ret@ =~= rooms@.subrange(0, 4) + middle_rows() + rooms@.subrange(4, 8));
    ret
}

} // verus!
