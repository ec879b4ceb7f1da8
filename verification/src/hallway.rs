use crate::color::Color;
use vstd::prelude::*;

verus! {

/// The column of the diagram in which hallway spot `idx` lies. The seven
/// spots are those where an amphipod may stop: the columns above the rooms
/// are left out.
pub open spec fn hall_pos(idx: int) -> int {
    if idx == 0 {
        0
    } else if idx == 1 {
        1
    } else if idx == 2 {
        3
    } else if idx == 3 {
        5
    } else if idx == 4 {
        7
    } else if idx == 5 {
        9
    } else {
        10
    }
}

/// The column in which a hallway spot lies.
pub fn hall_idx_to_pos(idx: usize) -> (r: u64)
    requires
        idx < 7,
    ensures
        r == hall_pos(idx as int),
{
    let table: [u64; 7] = [0, 1, 3, 5, 7, 9, 10];
    table[idx]
}

/// The nearest taken spot at or to the left of `start`, or -1.
pub open spec fn nearest_left(hall: Seq<Option<Color>>, start: int) -> int
    decreases start + 1,
{
    if start < 0 {
        -1
    } else if hall[start] is Some {
        start
    } else {
        nearest_left(hall, start - 1)
    }
}

/// The nearest taken spot at or to the right of `start`, or the length of
/// the hallway.
pub open spec fn nearest_right(hall: Seq<Option<Color>>, start: int) -> int
    decreases hall.len() - start,
{
    if start >= hall.len() {
        hall.len() as int
    } else if start >= 0 && hall[start] is Some {
        start
    } else {
        nearest_right(hall, start + 1)
    }
}

pub proof fn lemma_nearest_left(hall: Seq<Option<Color>>, start: int)
    requires
        -1 <= start < hall.len(),
    ensures
        -1 <= nearest_left(hall, start) <= start,
        nearest_left(hall, start) >= 0 ==> hall[nearest_left(hall, start)] is Some,
        forall|j: int| nearest_left(hall, start) < j <= start ==> hall[j] is None,
    decreases start + 1,
{
    if start >= 0 && hall[start] is None {
        lemma_nearest_left(hall, start - 1);
    }
}

pub proof fn lemma_nearest_right(hall: Seq<Option<Color>>, start: int)
    requires
        0 <= start,
    ensures
        start <= nearest_right(hall, start) || nearest_right(hall, start) == hall.len(),
        nearest_right(hall, start) <= hall.len() || start > hall.len(),
        nearest_right(hall, start) < hall.len() ==> hall[nearest_right(hall, start)] is Some,
        forall|j: int| start <= j < nearest_right(hall, start) ==> hall[j] is None,
    decreases hall.len() - start,
{
    if start < hall.len() && hall[start] is None {
        lemma_nearest_right(hall, start + 1);
    }
}

/// Where an amphipod of kind `target` is found by looking left from
/// `start`: the nearest taken spot, if it holds that kind.
pub open spec fn left_search_spec(hall: Seq<Option<Color>>, start: int, target: Color) -> Option<
    usize,
> {
    let h = nearest_left(hall, start);
    if h >= 0 && hall[h] == Some(target) {
        Some(h as usize)
    } else {
        None
    }
}

/// Where an amphipod of kind `target` is found by looking right from
/// `start`.
pub open spec fn right_search_spec(hall: Seq<Option<Color>>, start: int, target: Color) -> Option<
    usize,
> {
    let h = nearest_right(hall, start);
    if h < hall.len() && hall[h] == Some(target) {
        Some(h as usize)
    } else {
        None
    }
}

/// Looks left from `start_idx` for an amphipod of kind `target`.
pub fn left_search_hall(hall: &[Option<Color>; 7], start_idx: usize, target: Color) -> (r: Option<
    usize,
>)
    requires
        start_idx < 7,
    ensures
        r == left_search_spec(hall@, start_idx as int, target),
{
    let mut n: usize = start_idx + 1;
    while n > 0
        invariant
            n <= start_idx + 1,
            start_idx < 7,
            nearest_left(hall@, start_idx as int) == nearest_left(hall@, n - 1),
        decreases n,
    {
        let h_idx: usize = n - 1;
        match hall[h_idx] {
            Some(h_color) => {
                return if h_color == target {
                    Some(h_idx)
                } else {
                    None
                };
            },
            None => {},
        }
        n = n - 1;
    }
    None
}

/// Looks right from `start_idx` for an amphipod of kind `target`.
pub fn right_search_hall(hall: &[Option<Color>; 7], start_idx: usize, target: Color) -> (r: Option<
    usize,
>)
    ensures
        r == right_search_spec(hall@, start_idx as int, target),
{
    let mut h_idx: usize = start_idx;
    while h_idx < 7
        invariant
            start_idx <= h_idx,
            nearest_right(hall@, start_idx as int) == nearest_right(hall@, h_idx as int),
        decreases 7 - h_idx,
    {
        match hall[h_idx] {
            Some(h_color) => {
                return if h_color == target {
                    Some(h_idx)
                } else {
                    None
                };
            },
            None => {},
        }
        h_idx = h_idx + 1;
    }
    None
}

/// The free spots met by walking left from `start` up to the first taken
/// one, nearest first.
pub open spec fn left_empty_spec(hall: Seq<Option<Color>>, start: int) -> Seq<usize>
    decreases start + 1,
{
    if start < 0 || hall[start] is Some {
        seq![]
    } else {
        seq![start as usize] + left_empty_spec(hall, start - 1)
    }
}

/// The free spots met by walking right from `start` up to the first taken
/// one, nearest first.
pub open spec fn right_empty_spec(hall: Seq<Option<Color>>, start: int) -> Seq<usize>
    decreases hall.len() - start,
{
    if start < 0 || start >= hall.len() || hall[start] is Some {
        seq![]
    } else {
        seq![start as usize] + right_empty_spec(hall, start + 1)
    }
}

pub proof fn lemma_left_empty(hall: Seq<Option<Color>>, start: int)
    requires
        -1 <= start < hall.len() <= 7,
    ensures
        left_empty_spec(hall, start).len() <= start + 1,
        forall|k: int|
            0 <= k < left_empty_spec(hall, start).len() ==> {
                let h = #[trigger] left_empty_spec(hall, start)[k];
                0 <= h <= start && hall[h as int] is None
            },
    decreases start + 1,
{
    if start >= 0 && hall[start] is None {
        lemma_left_empty(hall, start - 1);
        let rest = left_empty_spec(hall, start - 1);
        let all = left_empty_spec(hall, start);
        assert forall|k: int| 0 <= k < all.len() implies {
            let h = #[trigger] all[k];
            0 <= h <= start && hall[h as int] is None
        } by {
            if k > 0 {
                assert(all[k] == rest[k - 1]);
            }
        }
    }
}

pub proof fn lemma_right_empty(hall: Seq<Option<Color>>, start: int)
    requires
        0 <= start,
        hall.len() <= 7,
    ensures
        right_empty_spec(hall, start).len() == 0 || right_empty_spec(hall, start).len() + start
            <= hall.len(),
        forall|k: int|
            0 <= k < right_empty_spec(hall, start).len() ==> {
                let h = #[trigger] right_empty_spec(hall, start)[k];
                start <= h < hall.len() && hall[h as int] is None
            },
    decreases hall.len() - start,
{
    if start < hall.len() && hall[start] is None {
        lemma_right_empty(hall, start + 1);
        let rest = right_empty_spec(hall, start + 1);
        let all = right_empty_spec(hall, start);
        assert forall|k: int| 0 <= k < all.len() implies {
            let h = #[trigger] all[k];
            start <= h < hall.len() && hall[h as int] is None
        } by {
            if k > 0 {
                assert(all[k] == rest[k - 1]);
            }
        }
    }
}

/// The free spots from `start_idx` to the left, as far as the way is free.
pub fn left_find_empty_hall(hall: &[Option<Color>; 7], start_idx: usize) -> (r: Vec<usize>)
    requires
        start_idx < 7,
    ensures
        r@ == left_empty_spec(hall@, start_idx as int),
{
    let mut out: Vec<usize> = Vec::new();
    let mut n: usize = start_idx + 1;
    while n > 0 && hall[n - 1].is_none()
        invariant
            n <= start_idx + 1,
            start_idx < 7,
            out@ + left_empty_spec(hall@, n - 1) == left_empty_spec(hall@, start_idx as int),
        decreases n,
    {
        let ghost before = out@;
        out.push(n - 1);
        n = n - 1;
        assert(out@ + left_empty_spec(hall@, n - 1) =~= before + (seq![n as usize]
            + left_empty_spec(hall@, n - 1)));
    }
    assert(out@ + Seq::<usize>::empty() =~= out@);
    out
}

/// The free spots from `start_idx` to the right, as far as the way is free.
pub fn right_find_empty_hall(hall: &[Option<Color>; 7], start_idx: usize) -> (r: Vec<usize>)
    ensures
        r@ == right_empty_spec(hall@, start_idx as int),
{
    let mut out: Vec<usize> = Vec::new();
    let mut h_idx: usize = start_idx;
    while h_idx < 7 && hall[h_idx].is_none()
        invariant
            out@ + right_empty_spec(hall@, h_idx as int) == right_empty_spec(
                hall@,
                start_idx as int,
            ),
        decreases 7 - h_idx,
    {
        let ghost before = out@;
        out.push(h_idx);
        h_idx = h_idx + 1;
        assert(out@ + right_empty_spec(hall@, h_idx as int) =~= before + (seq![
            (h_idx - 1) as usize,
        ] + right_empty_spec(hall@, h_idx as int)));
    }
    assert(out@ + Seq::<usize>::empty() =~= out@);
    out
}

/// The free spots that can be reached from the door of room `r_idx_min`:
/// those to its left, nearest first, then those to its right.
pub open spec fn empty_around_spec(hall: Seq<Option<Color>>, r_idx_min: int) -> Seq<usize> {
    left_empty_spec(hall, r_idx_min + 1) + right_empty_spec(hall, r_idx_min + 2)
}

pub proof fn lemma_empty_around(hall: Seq<Option<Color>>, r_idx_min: int)
    requires
        0 <= r_idx_min,
        r_idx_min + 1 < hall.len() <= 7,
    ensures
        forall|k: int|
            0 <= k < empty_around_spec(hall, r_idx_min).len() ==> {
                let h = #[trigger] empty_around_spec(hall, r_idx_min)[k];
                0 <= h < hall.len() && hall[h as int] is None
            },
{
    lemma_left_empty(hall, r_idx_min + 1);
    lemma_right_empty(hall, r_idx_min + 2);
}

/// The free spots that can be reached from the door of a room.
pub fn find_empty_hall_around(hall: &[Option<Color>; 7], r_idx_min: usize) -> (r: Vec<usize>)
    requires
        r_idx_min < 6,
    ensures
        r@ == empty_around_spec(hall@, r_idx_min as int),
{
    let mut out = left_find_empty_hall(hall, r_idx_min + 1);
    let mut right = right_find_empty_hall(hall, r_idx_min + 2);
    out.append(&mut right);
    out
}

/// Where the amphipod that may enter room `r_idx_min` stands: the nearest
/// one to the left of the door, if it is of the room's kind, else the
/// nearest one to the right, if that is.
pub open spec fn search_around_spec(hall: Seq<Option<Color>>, r_idx_min: int) -> Option<usize> {
    let target = Color::of_idx(r_idx_min);
    match left_search_spec(hall, r_idx_min + 1, target) {
        Some(h) => Some(h),
        None => right_search_spec(hall, r_idx_min + 2, target),
    }
}

pub proof fn lemma_search_around(hall: Seq<Option<Color>>, r_idx_min: int)
    requires
        0 <= r_idx_min,
        r_idx_min + 1 < hall.len() <= 7,
    ensures
        search_around_spec(hall, r_idx_min) matches Some(h) ==> h < hall.len() && hall[h as int]
            == Some(Color::of_idx(r_idx_min)),
{
    lemma_nearest_left(hall, r_idx_min + 1);
    lemma_nearest_right(hall, r_idx_min + 2);
}

/// Looks on both sides of the door of a room for the amphipod that may enter
/// it.
pub fn search_hall_around(hall: &[Option<Color>; 7], r_idx_min: usize) -> (r: Option<usize>)
    requires
        r_idx_min < 4,
    ensures
        r == search_around_spec(hall@, r_idx_min as int),
{
    let target = Color::from_idx(r_idx_min);
    if let Some(r) = left_search_hall(hall, r_idx_min + 1, target) {
        Some(r)
    } else if let Some(r) = right_search_hall(hall, r_idx_min + 2, target) {
        Some(r)
    } else {
        None
    }
}

} // verus!
