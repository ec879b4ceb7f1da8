use crate::text::{digit_of, digit_value, is_ascii_digit, is_digit};
use vstd::prelude::*;

verus! {

/// The heights that the digits of a line give; other characters are
/// passed over.
pub open spec fn heights_of(s: Seq<char>) -> Seq<u8>
    decreases s.len(),
{
    if s.len() == 0 {
        seq![]
    } else if is_digit(s.last()) {
        heights_of(s.drop_last()).push(digit_value(s.last()) as u8)
    } else {
        heights_of(s.drop_last())
    }
}

/// The heights that the digits of a line give.
pub fn read_row(s: &Vec<char>) -> (r: Vec<u8>)
    ensures
        r@ == heights_of(s@),
{
    let mut out: Vec<u8> = Vec::new();
    let mut i: usize = 0;
    while i < s.len()
        invariant
            i <= s.len(),
            out@ == heights_of(s@.subrange(0, i as int)),
        decreases s.len() - i,
    {
        proof {
            assert(s@.subrange(0, i + 1).drop_last() =~= s@.subrange(0, i as int));
            assert(s@.subrange(0, i + 1).last() == s@[i as int]);
        }
        if is_ascii_digit(s[i]) {
            out.push(digit_of(s[i]));
        }
        i = i + 1;
    }
    assert(s@.subrange(0, i as int) =~= s@);
    out
}

/// Reads the height map, one row from each line.
pub fn read_data(lines: &Vec<Vec<char>>) -> (r: Vec<Vec<u8>>)
    ensures
        r.len() == lines.len(),
        forall|i: int| 0 <= i < r.len() ==> (#[trigger] r[i])@ == heights_of(lines[i]@),
{
    let mut out: Vec<Vec<u8>> = Vec::new();
    let mut i: usize = 0;
    while i < lines.len()
        invariant
            i <= lines.len(),
            out.len() == i,
            forall|k: int| 0 <= k < i ==> (#[trigger] out[k])@ == heights_of(lines[k]@),
        decreases lines.len() - i,
    {
        out.push(read_row(&lines[i]));
        i = i + 1;
    }
    out
}

/// The height at `(y, x)`, or 255 where the map has no such place.
pub open spec fn height_at(data: Seq<Vec<u8>>, y: int, x: int) -> u8 {
    if 0 <= y < data.len() && 0 <= x < data[y].len() {
        data[y][x]
    } else {
        255
    }
}

/// The height at a place, 255 for a place outside of the map.
pub fn get_dig_bound(data: &Vec<Vec<u8>>, y: isize, x: isize) -> (r: u8)
    ensures
        r == height_at(data@, y as int, x as int),
{
    if (y < 0) || (x < 0) {
        return 255;
    }
    let y = y as usize;
    let x = x as usize;
    if y < data.len() && x < data[y].len() {
        data[y][x]
    } else {
        255
    }
}

/// The four steps to the places beside a place: right, left, down, up.
pub open spec fn offsets() -> Seq<(int, int)> {
    seq![(0, 1), (0, -1), (1, 0), (-1, 0)]
}

/// The places beside `(y, x)` that lie on a map of `y_max` rows and
/// `x_max` columns, among the first `k` of the four.
pub open spec fn adjacent_upto(y: int, x: int, y_max: int, x_max: int, k: int) -> Seq<
    (usize, usize),
>
    decreases k,
{
    if k <= 0 {
        seq![]
    } else {
        let o = offsets()[k - 1];
        let rest = adjacent_upto(y, x, y_max, x_max, k - 1);
        if 0 <= y + o.0 < y_max && 0 <= x + o.1 < x_max && y + o.0 <= usize::MAX && x + o.1
            <= usize::MAX {
            rest.push(((y + o.0) as usize, (x + o.1) as usize))
        } else {
            rest
        }
    }
}

pub open spec fn adjacent_spec(y: int, x: int, y_max: int, x_max: int) -> Seq<(usize, usize)> {
    adjacent_upto(y, x, y_max, x_max, 4)
}

/// Whether `n` lies beside `c`.
pub open spec fn beside(c: (usize, usize), n: (usize, usize)) -> bool {
    (n.0 == c.0 && (n.1 == c.1 + 1 || n.1 + 1 == c.1)) || (n.1 == c.1 && (n.0 == c.0 + 1 || n.0
        + 1 == c.0))
}

pub proof fn lemma_push_contains(s: Seq<(usize, usize)>, e: (usize, usize), n: (usize, usize))
    ensures
        s.push(e).contains(n) <==> s.contains(n) || e == n,
{
    let t = s.push(e);
    if s.contains(n) {
        let i = choose|i: int| 0 <= i < s.len() && s[i] == n;
        assert(t[i] == n);
    }
    if e == n {
        assert(t[t.len() - 1] == n);
    }
    if t.contains(n) {
        let i = choose|i: int| 0 <= i < t.len() && t[i] == n;
        if i < s.len() {
            assert(s[i] == n);
        }
    }
}

pub proof fn lemma_adjacent(y: int, x: int, y_max: int, x_max: int)
    requires
        0 <= y <= usize::MAX,
        0 <= x <= usize::MAX,
    ensures
        forall|n: (usize, usize)| #[trigger]
            adjacent_spec(y, x, y_max, x_max).contains(n) <==> (beside((y as usize, x as usize), n)
                && n.0 < y_max && n.1 < x_max),
{
    reveal_with_fuel(adjacent_upto, 5);
    let a = adjacent_spec(y, x, y_max, x_max);
    let s0 = adjacent_upto(y, x, y_max, x_max, 0);
    let s1 = adjacent_upto(y, x, y_max, x_max, 1);
    let s2 = adjacent_upto(y, x, y_max, x_max, 2);
    let s3 = adjacent_upto(y, x, y_max, x_max, 3);
    assert forall|n: (usize, usize)| #[trigger]
        a.contains(n) <==> (beside((y as usize, x as usize), n) && n.0 < y_max && n.1
            < x_max) by {
        assert(s0.len() == 0);
        assert(!s0.contains(n));
        lemma_push_contains(s0, (y as usize, (x + 1) as usize), n);
        lemma_push_contains(s1, (y as usize, (x - 1) as usize), n);
        lemma_push_contains(s2, ((y + 1) as usize, x as usize), n);
        lemma_push_contains(s3, ((y - 1) as usize, x as usize), n);
    }
}

/// The places beside `(y, x)` on a map of `y_max` rows and `x_max`
/// columns: to the right, to the left, below and above.
pub fn get_adjacent(y: usize, x: usize, y_max: usize, x_max: usize) -> (r: Vec<(usize, usize)>)
    ensures
        r@ == adjacent_spec(y as int, x as int, y_max as int, x_max as int),
        forall|n: (usize, usize)| #[trigger]
            r@.contains(n) <==> (beside((y, x), n) && n.0 < y_max && n.1 < x_max),
{
    let mut out: Vec<(usize, usize)> = Vec::new();
    proof {
        reveal_with_fuel(adjacent_upto, 5);
        lemma_adjacent(y as int, x as int, y_max as int, x_max as int);
    }
    if y < y_max && x < usize::MAX && x + 1 < x_max {
        out.push((y, x + 1));
    }
    if y < y_max && x >= 1 && x - 1 < x_max {
        out.push((y, x - 1));
    }
    if y < usize::MAX && y + 1 < y_max && x < x_max {
        out.push((y + 1, x));
    }
    if y >= 1 && y - 1 < y_max && x < x_max {
        out.push((y - 1, x));
    }
    assert(out@ =~= adjacent_spec(y as int, x as int, y_max as int, x_max as int));
    out
}

/// Whether the map has at least `y_max` rows of at least `x_max` places.
pub open spec fn covers(data: Seq<Vec<u8>>, y_max: int, x_max: int) -> bool {
    data.len() >= y_max && forall|y: int| 0 <= y < y_max ==> (#[trigger] data[y]).len() >= x_max
}

/// Whether water flows from `n` down to the place `c` beside it: `n` is
/// no lower than `c` and not of height 9.
pub open spec fn drains(data: Seq<Vec<u8>>, y_max: int, x_max: int, n: (usize, usize), c: (
    usize,
    usize,
)) -> bool {
    beside(c, n) && n.0 < y_max && n.1 < x_max && c.0 < y_max && c.1 < x_max
        && data[n.0 as int][n.1 as int] >= data[c.0 as int][c.1 as int]
        && data[n.0 as int][n.1 as int] != 9
}

/// Whether each place of `path` drains into the one before it.
pub open spec fn flows(data: Seq<Vec<u8>>, y_max: int, x_max: int, path: Seq<(usize, usize)>)
    -> bool {
    forall|i: int|
        1 <= i < path.len() ==> drains(data, y_max, x_max, #[trigger] path[i], path[i - 1])
}

/// Whether `path` leads water from `c` to `start`.
pub open spec fn leads(
    data: Seq<Vec<u8>>,
    y_max: int,
    x_max: int,
    start: (usize, usize),
    c: (usize, usize),
    path: Seq<(usize, usize)>,
) -> bool {
    path.len() > 0 && path[0] == start && path.last() == c && flows(data, y_max, x_max, path)
}

/// Whether water from `c` reaches `start`.
pub open spec fn drains_to(data: Seq<Vec<u8>>, y_max: int, x_max: int, start: (usize, usize), c: (
    usize,
    usize,
)) -> bool {
    exists|path: Seq<(usize, usize)>| leads(data, y_max, x_max, start, c, path)
}

/// The number of places among the first `k`, row by row, that `seen` does
/// not hold.
pub open spec fn unseen(seen: Seq<(usize, usize)>, x_max: int, k: int) -> int
    decreases k,
{
    if k <= 0 || x_max <= 0 {
        0
    } else {
        unseen(seen, x_max, k - 1) + (if seen.contains(
            (((k - 1) / x_max) as usize, ((k - 1) % x_max) as usize),
        ) {
            0int
        } else {
            1int
        })
    }
}

pub proof fn lemma_unseen_push(seen: Seq<(usize, usize)>, c: (usize, usize), x_max: int, k: int)
    requires
        0 < x_max <= usize::MAX,
        0 <= k,
        k <= usize::MAX * x_max,
        c.1 < x_max,
        !seen.contains(c),
    ensures
        0 <= unseen(seen.push(c), x_max, k) <= unseen(seen, x_max, k),
        c.0 * x_max + c.1 < k ==> unseen(seen.push(c), x_max, k) < unseen(seen, x_max, k),
    decreases k,
{
    if k > 0 {
        lemma_unseen_push(seen, c, x_max, k - 1);
        let cell = (((k - 1) / x_max) as usize, ((k - 1) % x_max) as usize);
        assert(0 <= (k - 1) / x_max <= usize::MAX && 0 <= (k - 1) % x_max < x_max) by (nonlinear_arith)
            requires
                0 < x_max,
                1 <= k <= usize::MAX * x_max,
        ;
        let after = seen.push(c);
        if seen.contains(cell) {
            let i = choose|i: int| 0 <= i < seen.len() && seen[i] == cell;
            assert(after[i] == cell);
        }
        if after.contains(cell) && !seen.contains(cell) {
            let i = choose|i: int| 0 <= i < after.len() && after[i] == cell;
            if i < seen.len() {
                assert(seen[i] == cell);
            }
            assert(cell == c);
        }
        if c.0 * x_max + c.1 == k - 1 {
            assert((k - 1) / x_max == c.0 && (k - 1) % x_max == c.1) by (nonlinear_arith)
                requires
                    c.0 * x_max + c.1 == k - 1,
                    0 <= c.1 < x_max,
                    0 <= c.0,
            ;
            assert(after[after.len() - 1] == c);
        }
    }
}

fn holds(seen: &Vec<(usize, usize)>, c: (usize, usize)) -> (r: bool)
    ensures
        r == seen@.contains(c),
{
    let mut i: usize = 0;
    while i < seen.len()
        invariant
            i <= seen.len(),
            forall|k: int| 0 <= k < i ==> seen@[k] != c,
        decreases seen.len() - i,
    {
        if seen[i].0 == c.0 && seen[i].1 == c.1 {
            return true;
        }
        i = i + 1;
    }
    false
}

/// Finds the basin of the place `(y, x)`: the places from which water
/// reaches it. The result holds each of them once.
pub fn find_drains_to(data: &Vec<Vec<u8>>, y: usize, x: usize, y_max: usize, x_max: usize) -> (ret:
    Vec<(usize, usize)>)
    requires
        covers(data@, y_max as int, x_max as int),
        y < y_max,
        x < x_max,
        y_max * x_max <= usize::MAX,
    ensures
        ret@.no_duplicates(),
        forall|c: (usize, usize)|
            ret@.contains(c) <==> drains_to(data@, y_max as int, x_max as int, (y, x), c),
{
    let mut ret: Vec<(usize, usize)> = Vec::new();
    let mut queue: Vec<(usize, usize)> = Vec::new();
    let mut head: usize = 0;
    queue.push((y, x));
    let ghost cells = y_max * x_max;
    let ghost start = (y, x);
    proof {
        assert(leads(data@, y_max as int, x_max as int, start, start, seq![start]));
        assert(queue@[0] == start);
    }
    while head < queue.len()
        invariant
            head <= queue.len(),
            covers(data@, y_max as int, x_max as int),
            cells == y_max * x_max,
            cells <= usize::MAX,
            start == (y, x),
            y < y_max,
            x < x_max,
            ret@.no_duplicates(),
            forall|i: int| 0 <= i < ret.len() ==> (#[trigger] ret@[i]).0 < y_max && ret@[i].1 < x_max,
            forall|i: int|
                0 <= i < queue.len() ==> (#[trigger] queue@[i]).0 < y_max && queue@[i].1 < x_max,
            forall|i: int|
                0 <= i < ret.len() ==> drains_to(
                    data@,
                    y_max as int,
                    x_max as int,
                    start,
                    #[trigger] ret@[i],
                ),
            forall|i: int|
                0 <= i < queue.len() ==> drains_to(
                    data@,
                    y_max as int,
                    x_max as int,
                    start,
                    #[trigger] queue@[i],
                ),
            ret@.contains(start) || (exists|i: int| head <= i < queue.len() && queue@[i] == start),
            forall|c: (usize, usize), n: (usize, usize)|
                ret@.contains(c) && #[trigger] drains(data@, y_max as int, x_max as int, n, c)
                    ==> ret@.contains(n) || (exists|i: int|
                    head <= i < queue.len() && queue@[i] == n),
        decreases unseen(ret@, x_max as int, cells as int), queue.len() - head,
    {
        let coord = queue[head];
        head = head + 1;
        if !holds(&ret, coord) {
            let ghost before = ret@;
            let ghost queue_before = queue@;
            proof {
                assert(coord.0 * x_max + coord.1 < y_max * x_max) by (nonlinear_arith)
                    requires
                        coord.0 < y_max,
                        coord.1 < x_max,
                ;
                assert(cells <= usize::MAX * x_max) by (nonlinear_arith)
                    requires
                        cells == y_max * x_max,
                        y_max <= usize::MAX,
                        x_max > 0,
                ;
                lemma_unseen_push(before, coord, x_max as int, cells as int);
            }
            ret.push(coord);
            let around = get_adjacent(coord.0, coord.1, y_max, x_max);
            let mut k: usize = 0;
            while k < around.len()
                invariant
                    k <= around.len(),
                    head <= queue.len(),
                    queue_before.len() <= queue.len(),
                    covers(data@, y_max as int, x_max as int),
                    coord.0 < y_max,
                    coord.1 < x_max,
                    forall|n: (usize, usize)| #[trigger]
                        around@.contains(n) <==> (beside(coord, n) && n.0 < y_max && n.1
                            < x_max),
                    forall|i: int| 0 <= i < queue_before.len() ==> queue@[i] == queue_before[i],
                    forall|i: int|
                        0 <= i < queue.len() ==> (#[trigger] queue@[i]).0 < y_max && queue@[i].1
                            < x_max,
                    drains_to(data@, y_max as int, x_max as int, start, coord),
                    forall|i: int|
                        0 <= i < queue.len() ==> drains_to(
                            data@,
                            y_max as int,
                            x_max as int,
                            start,
                            #[trigger] queue@[i],
                        ),
                    forall|j: int|
                        0 <= j < k && drains(
                            data@,
                            y_max as int,
                            x_max as int,
                            #[trigger] around@[j],
                            coord,
                        ) ==> exists|i: int| head <= i < queue.len() && queue@[i] == around@[j],
                decreases around.len() - k,
            {
                let c = around[k];
                assert(around@[k as int] == c);
                assert(around@.contains(c));
                assert(c.0 < y_max && c.1 < x_max);
                assert(data@[c.0 as int].len() >= x_max);
                assert(data@[coord.0 as int].len() >= x_max);
                let n = data[c.0][c.1];
                if (n >= data[coord.0][coord.1]) && (n != 9) {
                    proof {
                        let path = choose|path: Seq<(usize, usize)>|
                            leads(data@, y_max as int, x_max as int, start, coord, path);
                        assert(drains(data@, y_max as int, x_max as int, c, coord));
                        let longer = path.push(c);
                        assert forall|i: int| 1 <= i < longer.len() implies drains(
                            data@,
                            y_max as int,
                            x_max as int,
                            #[trigger] longer[i],
                            longer[i - 1],
                        ) by {
                            if i < path.len() {
                                assert(longer[i] == path[i] && longer[i - 1] == path[i - 1]);
                            }
                        }
                        assert(leads(data@, y_max as int, x_max as int, start, c, longer));
                    }
                    let ghost q0 = queue@;
                    queue.push(c);
                    proof {
                        assert(queue@[queue.len() - 1] == c);
                        assert forall|j: int|
                            0 <= j < k + 1 && drains(
                                data@,
                                y_max as int,
                                x_max as int,
                                #[trigger] around@[j],
                                coord,
                            ) implies exists|i: int|
                            head <= i < queue.len() && queue@[i] == around@[j] by {
                            if j < k {
                                let i = choose|i: int| head <= i < q0.len() && q0[i] == around@[j];
                                assert(queue@[i] == around@[j]);
                            } else {
                                assert(queue@[queue.len() - 1] == around@[j]);
                            }
                        }
                    }
                }
                k = k + 1;
            }
            proof {
                assert forall|c: (usize, usize), n: (usize, usize)|
                    ret@.contains(c) && #[trigger] drains(
                        data@,
                        y_max as int,
                        x_max as int,
                        n,
                        c,
                    ) implies ret@.contains(n) || (exists|i: int|
                    head <= i < queue.len() && queue@[i] == n) by {
                    if c == coord {
                        assert(around@.contains(n));
                        let j = choose|j: int| 0 <= j < around.len() && around@[j] == n;
                        assert(drains(data@, y_max as int, x_max as int, around@[j], coord));
                    } else {
                        let i0 = choose|i: int| 0 <= i < ret.len() && ret@[i] == c;
                        assert(before[i0] == c);
                        assert(before.contains(c));
                        if before.contains(n) {
                            let i1 = choose|i: int| 0 <= i < before.len() && before[i] == n;
                            assert(ret@[i1] == n);
                        } else {
                            let i = choose|i: int|
                                head - 1 <= i < queue_before.len() && queue_before[i] == n;
                            if i == head - 1 {
                                assert(n == coord);
                                assert(ret@[ret.len() - 1] == n);
                            } else {
                                assert(queue@[i] == n);
                            }
                        }
                    }
                }
                if before.contains(start) {
                    let i1 = choose|i: int| 0 <= i < before.len() && before[i] == start;
                    assert(ret@[i1] == start);
                } else {
                    let i = choose|i: int|
                        head - 1 <= i < queue_before.len() && queue_before[i] == start;
                    if i == head - 1 {
                        assert(ret@[ret.len() - 1] == start);
                    } else {
                        assert(queue@[i] == start);
                    }
                }
                assert forall|i: int| 0 <= i < ret.len() implies drains_to(
                    data@,
                    y_max as int,
                    x_max as int,
                    start,
                    #[trigger] ret@[i],
                ) by {
                    if i < before.len() {
                        assert(ret@[i] == before[i]);
                    }
                }
            }
        } else {
            proof {
                assert forall|c: (usize, usize), n: (usize, usize)|
                    ret@.contains(c) && #[trigger] drains(
                        data@,
                        y_max as int,
                        x_max as int,
                        n,
                        c,
                    ) implies ret@.contains(n) || (exists|i: int|
                    head <= i < queue.len() && queue@[i] == n) by {
                    if !ret@.contains(n) {
                        let i = choose|i: int| head - 1 <= i < queue.len() && queue@[i] == n;
                        assert(i != head - 1);
                    }
                }
                if !ret@.contains(start) {
                    let i = choose|i: int| head - 1 <= i < queue.len() && queue@[i] == start;
                    assert(i != head - 1);
                }
            }
        }
    }
    proof {
        assert forall|c: (usize, usize)|
            drains_to(data@, y_max as int, x_max as int, start, c) implies ret@.contains(c) by {
            let path = choose|path: Seq<(usize, usize)>|
                leads(data@, y_max as int, x_max as int, start, c, path);
            lemma_closed(data@, y_max as int, x_max as int, ret@, path, path.len() - 1);
        }
        assert forall|c: (usize, usize)| ret@.contains(c) implies drains_to(
            data@,
            y_max as int,
            x_max as int,
            start,
            c,
        ) by {
            let i = choose|i: int| 0 <= i < ret.len() && ret@[i] == c;
            assert(drains_to(data@, y_max as int, x_max as int, start, ret@[i]));
        }
    }
    ret
}

/// A list that holds the first place of a path of flowing water and,
/// with each place, every place that drains into it, holds every place of
/// the path.
pub proof fn lemma_closed(
    data: Seq<Vec<u8>>,
    y_max: int,
    x_max: int,
    ret: Seq<(usize, usize)>,
    path: Seq<(usize, usize)>,
    i: int,
)
    requires
        0 <= i < path.len(),
        ret.contains(path[0]),
        flows(data, y_max, x_max, path),
        forall|p: (usize, usize), n: (usize, usize)|
            ret.contains(p) && #[trigger] drains(data, y_max, x_max, n, p) ==> ret.contains(n),
    ensures
        ret.contains(path[i]),
    decreases i,
{
    if i > 0 {
        lemma_closed(data, y_max, x_max, ret, path, i - 1);
        assert(drains(data, y_max, x_max, path[i], path[i - 1]));
    }
}

/// Whether the place `c` lies lower than every place beside it.
pub open spec fn is_low(data: Seq<Vec<u8>>, y_max: int, x_max: int, c: (usize, usize)) -> bool {
    c.0 < y_max && c.1 < x_max && forall|n: (usize, usize)|
        beside(c, n) && n.0 < y_max && n.1 < x_max ==> #[trigger] data[n.0 as int][n.1 as int]
            > data[c.0 as int][c.1 as int]
}

pub open spec fn place_before(a: (usize, usize), b: (usize, usize)) -> bool {
    a.0 < b.0 || (a.0 == b.0 && a.1 < b.1)
}

fn lowest_here(data: &Vec<Vec<u8>>, y: usize, x: usize, y_max: usize, x_max: usize) -> (r: bool)
    requires
        covers(data@, y_max as int, x_max as int),
        y < y_max,
        x < x_max,
    ensures
        r == is_low(data@, y_max as int, x_max as int, (y, x)),
{
    let around = get_adjacent(y, x, y_max, x_max);
    assert(data@[y as int].len() >= x_max);
    let here = data[y][x];
    let mut k: usize = 0;
    while k < around.len()
        invariant
            k <= around.len(),
            covers(data@, y_max as int, x_max as int),
            y < y_max,
            x < x_max,
            here == data@[y as int][x as int],
            forall|n: (usize, usize)| #[trigger]
                around@.contains(n) <==> (beside((y, x), n) && n.0 < y_max && n.1 < x_max),
            forall|j: int|
                0 <= j < k ==> data@[(#[trigger] around@[j]).0 as int][around@[j].1 as int] > here,
        decreases around.len() - k,
    {
        let c = around[k];
        assert(around@.contains(around@[k as int]));
        assert(data@[c.0 as int].len() >= x_max);
        if !(data[c.0][c.1] > here) {
            return false;
        }
        k = k + 1;
    }
    proof {
        assert forall|n: (usize, usize)|
            beside((y, x), n) && n.0 < y_max && n.1 < x_max implies #[trigger] data@[n.0 as int][n.1 as int]
            > here by {
            assert(around@.contains(n));
            let j = choose|j: int| 0 <= j < around.len() && around@[j] == n;
            assert(data@[around@[j].0 as int][around@[j].1 as int] > here);
        }
    }
    true
}

/// The places that lie lower than every place beside them, row by row.
pub fn low_points(data: &Vec<Vec<u8>>, y_max: usize, x_max: usize) -> (r: Vec<(usize, usize)>)
    requires
        covers(data@, y_max as int, x_max as int),
    ensures
        forall|i: int, j: int| 0 <= i < j < r.len() ==> place_before(r[i], r[j]),
        forall|c: (usize, usize)| #[trigger]
            r@.contains(c) <==> is_low(data@, y_max as int, x_max as int, c),
{
    let mut out: Vec<(usize, usize)> = Vec::new();
    let mut y: usize = 0;
    while y < y_max
        invariant
            y <= y_max,
            covers(data@, y_max as int, x_max as int),
            forall|i: int, j: int| 0 <= i < j < out.len() ==> place_before(out[i], out[j]),
            forall|i: int| 0 <= i < out.len() ==> (#[trigger] out[i]).0 < y,
            forall|c: (usize, usize)| #[trigger]
                out@.contains(c) <==> (is_low(data@, y_max as int, x_max as int, c) && c.0 < y),
        decreases y_max - y,
    {
        let mut x: usize = 0;
        while x < x_max
            invariant
                x <= x_max,
                y < y_max,
                covers(data@, y_max as int, x_max as int),
                forall|i: int, j: int| 0 <= i < j < out.len() ==> place_before(out[i], out[j]),
                forall|i: int| 0 <= i < out.len() ==> place_before(#[trigger] out[i], (y, x)),
                forall|c: (usize, usize)| #[trigger]
                    out@.contains(c) <==> (is_low(data@, y_max as int, x_max as int, c)
                        && place_before(c, (y, x))),
            decreases x_max - x,
        {
            let ghost before = out@;
            let low = lowest_here(data, y, x, y_max, x_max);
            if low {
                out.push((y, x));
            }
            proof {
                assert forall|c: (usize, usize)| #[trigger]
                    out@.contains(c) <==> (is_low(data@, y_max as int, x_max as int, c)
                        && place_before(c, (y, (x + 1) as usize))) by {
                    lemma_push_contains(before, (y, x), c);
                }
            }
            x = x + 1;
        }
        y = y + 1;
    }
    out
}

/// The sum of the risk levels of the first `k` places: one more than the
/// height of each.
pub open spec fn risk_sum(data: Seq<Vec<u8>>, points: Seq<(usize, usize)>, k: int) -> int
    decreases k,
{
    if k <= 0 {
        0
    } else {
        risk_sum(data, points, k - 1) + 1 + data[points[k - 1].0 as int][points[k - 1].1 as int]
    }
}

pub proof fn lemma_risk_sum_grows(data: Seq<Vec<u8>>, points: Seq<(usize, usize)>, k: int, m: int)
    requires
        0 <= k <= m,
    ensures
        0 <= risk_sum(data, points, k) <= risk_sum(data, points, m),
    decreases m - k,
{
    if k < m {
        lemma_risk_sum_grows(data, points, k, m - 1);
    } else {
        lemma_risk_sum_grows_zero(data, points, k);
    }
}

pub proof fn lemma_risk_sum_grows_zero(data: Seq<Vec<u8>>, points: Seq<(usize, usize)>, k: int)
    ensures
        0 <= risk_sum(data, points, k),
    decreases k,
{
    if k > 0 {
        lemma_risk_sum_grows_zero(data, points, k - 1);
    }
}

/// Adds up the risk levels of the places. `None` when the sum leaves the
/// range of `u32`.
pub fn risk_level(data: &Vec<Vec<u8>>, points: &Vec<(usize, usize)>) -> (r: Option<u32>)
    requires
        forall|i: int|
            0 <= i < points.len() ==> (#[trigger] points[i]).0 < data.len() && points[i].1
                < data[points[i].0 as int].len(),
    ensures
        r == (if risk_sum(data@, points@, points.len() as int) <= u32::MAX {
            Some(risk_sum(data@, points@, points.len() as int) as u32)
        } else {
            None
        }),
{
    let mut sum: u32 = 0;
    let mut i: usize = 0;
    while i < points.len()
        invariant
            i <= points.len(),
            forall|k: int|
                0 <= k < points.len() ==> (#[trigger] points[k]).0 < data.len() && points[k].1
                    < data[points[k].0 as int].len(),
            sum == risk_sum(data@, points@, i as int),
        decreases points.len() - i,
    {
        let p = points[i];
        assert(points[i as int].0 < data.len());
        let add: u32 = 1 + (data[p.0][p.1] as u32);
        sum = match sum.checked_add(add) {
            Some(v) => v,
            None => {
                proof {
                    lemma_risk_sum_grows(data@, points@, i + 1, points.len() as int);
                }
                return None;
            },
        };
        i = i + 1;
    }
    Some(sum)
}

/// The three greatest of the first `k` sizes, the greatest first; 0 where
/// there are fewer.
pub open spec fn top_three_spec(sizes: Seq<usize>, k: int) -> (usize, usize, usize)
    decreases k,
{
    if k <= 0 {
        (0, 0, 0)
    } else {
        let t = top_three_spec(sizes, k - 1);
        let n = sizes[k - 1];
        if n > t.0 {
            (n, t.0, t.1)
        } else if n > t.1 {
            (t.0, n, t.1)
        } else if n > t.2 {
            (t.0, t.1, n)
        } else {
            t
        }
    }
}

/// The number of sizes among the first `k` that are greater than `v`.
pub open spec fn above(sizes: Seq<usize>, k: int, v: int) -> int
    decreases k,
{
    if k <= 0 {
        0
    } else {
        above(sizes, k - 1, v) + (if sizes[k - 1] > v {
            1int
        } else {
            0int
        })
    }
}

/// The number of sizes among the first `k` that are `v` or greater.
pub open spec fn at_least(sizes: Seq<usize>, k: int, v: int) -> int
    decreases k,
{
    if k <= 0 {
        0
    } else {
        at_least(sizes, k - 1, v) + (if sizes[k - 1] >= v {
            1int
        } else {
            0int
        })
    }
}

pub proof fn lemma_counts(sizes: Seq<usize>, k: int, v: int, w: int)
    requires
        v <= w,
    ensures
        0 <= above(sizes, k, w) <= above(sizes, k, v),
        0 <= at_least(sizes, k, w) <= at_least(sizes, k, v),
        above(sizes, k, v) <= at_least(sizes, k, v),
        k >= 0 ==> at_least(sizes, k, v) <= k,
        v < w ==> at_least(sizes, k, w) <= above(sizes, k, v),
    decreases k,
{
    if k > 0 {
        lemma_counts(sizes, k - 1, v, w);
    }
}

/// The triple holds the three greatest of the first `k` sizes: the
/// greatest first, no size above the first, at most one above the second
/// and at most two above the third, and as far as there are sizes at all,
/// one that is no less than the first, two no less than the second and
/// three no less than the third.
pub proof fn lemma_top_three(sizes: Seq<usize>, k: int)
    requires
        0 <= k <= sizes.len(),
    ensures
        ({
            let t = top_three_spec(sizes, k);
            &&& t.0 >= t.1 >= t.2
            &&& above(sizes, k, t.0 as int) == 0
            &&& above(sizes, k, t.1 as int) <= 1
            &&& above(sizes, k, t.2 as int) <= 2
            &&& k >= 1 ==> at_least(sizes, k, t.0 as int) >= 1
            &&& k >= 2 ==> at_least(sizes, k, t.1 as int) >= 2
            &&& k >= 3 ==> at_least(sizes, k, t.2 as int) >= 3
            &&& k < 3 ==> t.2 == 0
            &&& k < 2 ==> t.1 == 0
            &&& k < 1 ==> t.0 == 0
        }),
    decreases k,
{
    if k > 0 {
        lemma_top_three(sizes, k - 1);
        let t = top_three_spec(sizes, k - 1);
        let u = top_three_spec(sizes, k);
        let n = sizes[k - 1] as int;
        lemma_counts_both(sizes, k - 1, t.0 as int, t.1 as int);
        lemma_counts_both(sizes, k - 1, t.1 as int, t.2 as int);
        lemma_counts_both(sizes, k - 1, t.0 as int, t.2 as int);
        lemma_counts_both(sizes, k - 1, t.0 as int, n);
        lemma_counts_both(sizes, k - 1, t.1 as int, n);
        lemma_counts_both(sizes, k - 1, t.2 as int, n);
        lemma_counts_both(sizes, k - 1, 0, t.2 as int);
        lemma_counts_both(sizes, k - 1, 0, n);
        lemma_at_least_zero(sizes, k - 1);
    }
}

pub proof fn lemma_counts_both(sizes: Seq<usize>, k: int, a: int, b: int)
    ensures
        a <= b ==> above(sizes, k, b) <= above(sizes, k, a) && at_least(sizes, k, b) <= at_least(
            sizes,
            k,
            a,
        ),
        b <= a ==> above(sizes, k, a) <= above(sizes, k, b) && at_least(sizes, k, a) <= at_least(
            sizes,
            k,
            b,
        ),
        a < b ==> at_least(sizes, k, b) <= above(sizes, k, a),
        b < a ==> at_least(sizes, k, a) <= above(sizes, k, b),
        0 <= above(sizes, k, a) <= at_least(sizes, k, a),
        0 <= above(sizes, k, b) <= at_least(sizes, k, b),
        k >= 0 ==> at_least(sizes, k, a) <= k && at_least(sizes, k, b) <= k,
{
    if a <= b {
        lemma_counts(sizes, k, a, b);
    } else {
        lemma_counts(sizes, k, b, a);
    }
    lemma_counts(sizes, k, a, a);
    lemma_counts(sizes, k, b, b);
}

pub proof fn lemma_at_least_zero(sizes: Seq<usize>, k: int)
    requires
        0 <= k,
    ensures
        at_least(sizes, k, 0) == k,
    decreases k,
{
    if k > 0 {
        lemma_at_least_zero(sizes, k - 1);
    }
}

/// The three greatest sizes, the greatest first.
pub fn top_three(sizes: &Vec<usize>) -> (r: (usize, usize, usize))
    ensures
        r == top_three_spec(sizes@, sizes.len() as int),
        r.0 >= r.1 >= r.2,
        above(sizes@, sizes.len() as int, r.0 as int) == 0,
        above(sizes@, sizes.len() as int, r.1 as int) <= 1,
        above(sizes@, sizes.len() as int, r.2 as int) <= 2,
        sizes.len() >= 3 ==> at_least(sizes@, sizes.len() as int, r.2 as int) >= 3 && at_least(
            sizes@,
            sizes.len() as int,
            r.1 as int,
        ) >= 2 && at_least(sizes@, sizes.len() as int, r.0 as int) >= 1,
{
    proof {
        lemma_top_three(sizes@, sizes.len() as int);
    }
    let mut max_1: usize = 0;
    let mut max_2: usize = 0;
    let mut max_3: usize = 0;
    let mut i: usize = 0;
    while i < sizes.len()
        invariant
            i <= sizes.len(),
            (max_1, max_2, max_3) == top_three_spec(sizes@, i as int),
        decreases sizes.len() - i,
    {
        let n = sizes[i];
        if n > max_1 {
            max_3 = max_2;
            max_2 = max_1;
            max_1 = n;
        } else if n > max_2 {
            max_3 = max_2;
            max_2 = n;
        } else if n > max_3 {
            max_3 = n;
        }
        i = i + 1;
    }
    (max_1, max_2, max_3)
}

/// Whether `basin` holds, each once, the places from which water reaches
/// `start`.
pub open spec fn is_basin(
    data: Seq<Vec<u8>>,
    y_max: int,
    x_max: int,
    start: (usize, usize),
    basin: Seq<(usize, usize)>,
) -> bool {
    basin.no_duplicates() && forall|c: (usize, usize)|
        basin.contains(c) <==> drains_to(data, y_max, x_max, start, c)
}

/// Whether `n` places drain to `start`.
pub open spec fn basin_size(data: Seq<Vec<u8>>, y_max: int, x_max: int, start: (usize, usize), n: int)
    -> bool {
    exists|basin: Seq<(usize, usize)>|
        #[trigger] is_basin(data, y_max, x_max, start, basin) && basin.len() == n
}

/// The sizes of the basins of the places `points`.
pub fn basin_sizes(data: &Vec<Vec<u8>>, points: &Vec<(usize, usize)>, y_max: usize, x_max: usize)
    -> (r: Vec<usize>)
    requires
        covers(data@, y_max as int, x_max as int),
        y_max * x_max <= usize::MAX,
        forall|i: int| 0 <= i < points.len() ==> (#[trigger] points[i]).0 < y_max && points[i].1 < x_max,
    ensures
        r.len() == points.len(),
        forall|i: int|
            0 <= i < r.len() ==> basin_size(
                data@,
                y_max as int,
                x_max as int,
                points[i],
                (#[trigger] r[i]) as int,
            ),
{
    let mut out: Vec<usize> = Vec::new();
    let mut i: usize = 0;
    while i < points.len()
        invariant
            i <= points.len(),
            covers(data@, y_max as int, x_max as int),
            y_max * x_max <= usize::MAX,
            forall|k: int|
                0 <= k < points.len() ==> (#[trigger] points[k]).0 < y_max && points[k].1 < x_max,
            out.len() == i,
            forall|k: int|
                0 <= k < i ==> basin_size(
                    data@,
                    y_max as int,
                    x_max as int,
                    points[k],
                    (#[trigger] out[k]) as int,
                ),
        decreases points.len() - i,
    {
        let low = points[i];
        assert(points[i as int].0 < y_max);
        let basin = find_drains_to(data, low.0, low.1, y_max, x_max);
        proof {
            assert(is_basin(data@, y_max as int, x_max as int, low, basin@));
        }
        out.push(basin.len());
        i = i + 1;
    }
    out
}

} // verus!
