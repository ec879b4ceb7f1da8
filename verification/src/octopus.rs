use crate::basins::{heights_of, read_row};
use crate::cascade::{blaze, lemma_blaze, level};
use vstd::prelude::*;

verus! {

/// The energy levels as a grid of numbers.
pub open spec fn grid_view(d: Seq<Vec<u8>>) -> Seq<Seq<u8>> {
    d.map_values(|r: Vec<u8>| r@)
}

/// Whether the grid has ten rows of ten places.
pub open spec fn shaped(g: Seq<Seq<u8>>) -> bool {
    g.len() == 10 && forall|y: int| 0 <= y < 10 ==> (#[trigger] g[y]).len() == 10
}

/// The eight steps to the places around a place, row by row.
pub open spec fn offsets() -> Seq<(int, int)> {
    seq![(-1, -1), (-1, 0), (-1, 1), (0, -1), (0, 1), (1, -1), (1, 0), (1, 1)]
}

/// The places around `(y, x)` that lie on the grid, among the first `k`
/// of the eight.
pub open spec fn adjacent_upto(y: int, x: int, k: int) -> Seq<(usize, usize)>
    decreases k,
{
    if k <= 0 {
        seq![]
    } else {
        let o = offsets()[k - 1];
        let rest = adjacent_upto(y, x, k - 1);
        if 0 <= y + o.0 < 10 && 0 <= x + o.1 < 10 {
            rest.push(((y + o.0) as usize, (x + o.1) as usize))
        } else {
            rest
        }
    }
}

/// The places around `(y, x)` that lie on the grid.
pub open spec fn adjacent_spec(y: int, x: int) -> Seq<(usize, usize)> {
    adjacent_upto(y, x, 8)
}

pub proof fn lemma_adjacent(y: int, x: int, k: int)
    requires
        0 <= k <= 8,
    ensures
        forall|i: int|
            0 <= i < adjacent_upto(y, x, k).len() ==> (#[trigger] adjacent_upto(y, x, k)[i]).0 < 10
                && adjacent_upto(y, x, k)[i].1 < 10,
    decreases k,
{
    if k > 0 {
        lemma_adjacent(y, x, k - 1);
        let rest = adjacent_upto(y, x, k - 1);
        let all = adjacent_upto(y, x, k);
        assert forall|i: int| 0 <= i < all.len() implies (#[trigger] all[i]).0 < 10 && all[i].1
            < 10 by {
            if i < rest.len() {
                assert(all[i] == rest[i]);
            }
        }
    }
}

/// The places around a place that lie on the grid.
pub fn get_adjacent(y: usize, x: usize) -> (r: Vec<(usize, usize)>)
    ensures
        r@ == adjacent_spec(y as int, x as int),
        forall|i: int| 0 <= i < r.len() ==> (#[trigger] r[i]).0 < 10 && r[i].1 < 10,
{
    let mut out: Vec<(usize, usize)> = Vec::new();
    let steps: [(i8, i8); 8] = [
        (-1, -1),
        (-1, 0),
        (-1, 1),
        (0, -1),
        (0, 1),
        (1, -1),
        (1, 0),
        (1, 1),
    ];
    let mut k: usize = 0;
    while k < 8
        invariant
            k <= 8,
            forall|i: int|
                0 <= i < 8 ==> (#[trigger] steps@[i]).0 == offsets()[i].0 && steps@[i].1
                    == offsets()[i].1,
            out@ == adjacent_upto(y as int, x as int, k as int),
        decreases 8 - k,
    {
        let (dy, dx) = steps[k];
        assert(steps@[k as int].0 == offsets()[k as int].0);
        let ny: Option<usize> = if dy < 0 {
            if y >= 1 {
                Some(y - 1)
            } else {
                None
            }
        } else if dy > 0 {
            if y < 9 {
                Some(y + 1)
            } else {
                None
            }
        } else {
            if y < 10 {
                Some(y)
            } else {
                None
            }
        };
        let nx: Option<usize> = if dx < 0 {
            if x >= 1 {
                Some(x - 1)
            } else {
                None
            }
        } else if dx > 0 {
            if x < 9 {
                Some(x + 1)
            } else {
                None
            }
        } else {
            if x < 10 {
                Some(x)
            } else {
                None
            }
        };
        match (ny, nx) {
            (Some(a), Some(b)) => {
                if a < 10 && b < 10 {
                    out.push((a, b));
                }
            },
            _ => {},
        }
        k = k + 1;
    }
    proof {
        lemma_adjacent(y as int, x as int, 8);
    }
    out
}

/// How often the place can still take energy before it has flashed.
pub open spec fn left(v: u8) -> int {
    if v >= 10 {
        0
    } else {
        10 - v
    }
}

#[verifier::opaque]
pub open spec fn row_left(r: Seq<u8>) -> int {
    left(r[0]) + left(r[1]) + left(r[2]) + left(r[3]) + left(r[4]) + left(r[5]) + left(r[6])
        + left(r[7]) + left(r[8]) + left(r[9])
}

/// How much energy the grid can still take before every place has
/// flashed.
#[verifier::opaque]
pub open spec fn grid_left(g: Seq<Seq<u8>>) -> int {
    row_left(g[0]) + row_left(g[1]) + row_left(g[2]) + row_left(g[3]) + row_left(g[4])
        + row_left(g[5]) + row_left(g[6]) + row_left(g[7]) + row_left(g[8]) + row_left(g[9])
}

pub proof fn lemma_row_bounds(r: Seq<u8>)
    ensures
        0 <= row_left(r) <= 100,
{
    reveal(row_left);
}

pub proof fn lemma_left_bounds(g: Seq<Seq<u8>>)
    ensures
        0 <= grid_left(g) <= 1000,
{
    reveal(grid_left);
    lemma_row_bounds(g[0]);
    lemma_row_bounds(g[1]);
    lemma_row_bounds(g[2]);
    lemma_row_bounds(g[3]);
    lemma_row_bounds(g[4]);
    lemma_row_bounds(g[5]);
    lemma_row_bounds(g[6]);
    lemma_row_bounds(g[7]);
    lemma_row_bounds(g[8]);
    lemma_row_bounds(g[9]);
}

pub proof fn lemma_row_update(r: Seq<u8>, x: int, v: u8)
    requires
        r.len() == 10,
        0 <= x < 10,
    ensures
        row_left(r.update(x, v)) == row_left(r) - left(r[x]) + left(v),
{
    reveal(row_left);
    let s = r.update(x, v);
    assert(s[x] == v);
    if x != 0 {
        assert(s[0] == r[0]);
    }
    if x != 1 {
        assert(s[1] == r[1]);
    }
    if x != 2 {
        assert(s[2] == r[2]);
    }
    if x != 3 {
        assert(s[3] == r[3]);
    }
    if x != 4 {
        assert(s[4] == r[4]);
    }
    if x != 5 {
        assert(s[5] == r[5]);
    }
    if x != 6 {
        assert(s[6] == r[6]);
    }
    if x != 7 {
        assert(s[7] == r[7]);
    }
    if x != 8 {
        assert(s[8] == r[8]);
    }
    if x != 9 {
        assert(s[9] == r[9]);
    }
}

/// The grid with the place `(y, x)` set to `v`.
pub open spec fn put(g: Seq<Seq<u8>>, y: int, x: int, v: u8) -> Seq<Seq<u8>> {
    g.update(y, g[y].update(x, v))
}

pub proof fn lemma_put(g: Seq<Seq<u8>>, y: int, x: int, v: u8)
    requires
        shaped(g),
        0 <= y < 10,
        0 <= x < 10,
    ensures
        shaped(put(g, y, x, v)),
        grid_left(put(g, y, x, v)) == grid_left(g) - left(g[y][x]) + left(v),
{
    reveal(grid_left);
    let h = put(g, y, x, v);
    lemma_row_update(g[y], x, v);
    assert(h[y] == g[y].update(x, v));
    assert forall|k: int| 0 <= k < 10 implies (#[trigger] h[k]).len() == 10 by {
        if k != y {
            assert(h[k] == g[k]);
        }
    }
    if y != 0 {
        assert(h[0] == g[0]);
    }
    if y != 1 {
        assert(h[1] == g[1]);
    }
    if y != 2 {
        assert(h[2] == g[2]);
    }
    if y != 3 {
        assert(h[3] == g[3]);
    }
    if y != 4 {
        assert(h[4] == g[4]);
    }
    if y != 5 {
        assert(h[5] == g[5]);
    }
    if y != 6 {
        assert(h[6] == g[6]);
    }
    if y != 7 {
        assert(h[7] == g[7]);
    }
    if y != 8 {
        assert(h[8] == g[8]);
    }
    if y != 9 {
        assert(h[9] == g[9]);
    }
}

/// The grid after the place `(y, x)` has taken one unit of energy: below
/// 9 the level rises; at 9 the place flashes, which is marked by the
/// level 10, and every place around it takes one unit in turn; a place
/// that has flashed takes nothing.
pub open spec fn inc_spec(g: Seq<Seq<u8>>, y: int, x: int) -> Seq<Seq<u8>>
    decreases grid_left(g), 0int, 0int,
{
    if !shaped(g) || !(0 <= y < 10 && 0 <= x < 10) {
        g
    } else if g[y][x] <= 8 {
        put(g, y, x, (g[y][x] + 1) as u8)
    } else if g[y][x] == 9 {
        proof {
            lemma_put(g, y, x, 10);
            lemma_left_bounds(g);
            lemma_left_bounds(put(g, y, x, 10));
        }
        inc_all(put(g, y, x, 10), adjacent_spec(y, x), 0)
    } else {
        g
    }
}

/// The grid after the places of `cells`, from the `i`-th on, have each
/// taken one unit of energy.
pub open spec fn inc_all(g: Seq<Seq<u8>>, cells: Seq<(usize, usize)>, i: int) -> Seq<Seq<u8>>
    decreases grid_left(g), 1int, cells.len() - i,
{
    if i < 0 || i >= cells.len() {
        g
    } else {
        let h = inc_spec(g, cells[i].0 as int, cells[i].1 as int);
        proof {
            lemma_left_bounds(g);
            lemma_left_bounds(h);
        }
        if grid_left(h) <= grid_left(g) {
            inc_all(h, cells, i + 1)
        } else {
            h
        }
    }
}

/// Taking energy keeps the shape of the grid and never gives back what
/// was taken.
pub proof fn lemma_inc(g: Seq<Seq<u8>>, y: int, x: int)
    requires
        shaped(g),
    ensures
        shaped(inc_spec(g, y, x)),
        grid_left(inc_spec(g, y, x)) <= grid_left(g),
    decreases grid_left(g), 0int, 0int,
{
    if 0 <= y < 10 && 0 <= x < 10 {
        if g[y][x] <= 8 {
            lemma_put(g, y, x, (g[y][x] + 1) as u8);
        } else if g[y][x] == 9 {
            lemma_put(g, y, x, 10);
            lemma_left_bounds(g);
            lemma_left_bounds(put(g, y, x, 10));
            lemma_inc_all(put(g, y, x, 10), adjacent_spec(y, x), 0);
        }
    }
}

pub proof fn lemma_inc_all(g: Seq<Seq<u8>>, cells: Seq<(usize, usize)>, i: int)
    requires
        shaped(g),
    ensures
        shaped(inc_all(g, cells, i)),
        grid_left(inc_all(g, cells, i)) <= grid_left(g),
    decreases grid_left(g), 1int, cells.len() - i,
{
    if 0 <= i < cells.len() {
        lemma_inc(g, cells[i].0 as int, cells[i].1 as int);
        let h = inc_spec(g, cells[i].0 as int, cells[i].1 as int);
        lemma_left_bounds(g);
        lemma_left_bounds(h);
        lemma_inc_all(h, cells, i + 1);
    }
}

fn inc_pos(data: &mut Vec<Vec<u8>>, y: usize, x: usize)
    requires
        shaped(grid_view(old(data)@)),
        y < 10,
        x < 10,
    ensures
        grid_view(final(data)@) == inc_spec(grid_view(old(data)@), y as int, x as int),
        shaped(grid_view(final(data)@)),
        grid_left(grid_view(final(data)@)) <= grid_left(grid_view(old(data)@)),
    decreases grid_left(grid_view(old(data)@)),
{
    let ghost g0 = grid_view(data@);
    proof {
        lemma_inc(g0, y as int, x as int);
        lemma_left_bounds(g0);
        assert(g0[y as int] == data@[y as int]@);
    }
    let v: u8 = data[y][x];
    if v <= 8 {
        data[y][x] = v + 1;
        assert(grid_view(data@) =~= put(g0, y as int, x as int, (v + 1) as u8));
    } else if v == 9 {
        data[y][x] = 10;
        let ghost g1 = grid_view(data@);
        assert(g1 =~= put(g0, y as int, x as int, 10));
        proof {
            lemma_put(g0, y as int, x as int, 10);
        }
        let cells = get_adjacent(y, x);
        let mut i: usize = 0;
        while i < cells.len()
            invariant
                i <= cells.len(),
                y < 10,
                x < 10,
                cells@ == adjacent_spec(y as int, x as int),
                forall|k: int| 0 <= k < cells.len() ==> (#[trigger] cells[k]).0 < 10 && cells[k].1 < 10,
                shaped(grid_view(data@)),
                grid_left(grid_view(data@)) <= grid_left(g1),
                grid_left(g1) < grid_left(g0),
                g0 == grid_view(old(data)@),
                inc_all(grid_view(data@), cells@, i as int) == inc_all(g1, cells@, 0),
            decreases cells.len() - i,
        {
            let c = cells[i];
            assert(cells[i as int].0 < 10 && cells[i as int].1 < 10);
            proof {
                lemma_left_bounds(grid_view(data@));
            }
            inc_pos(data, c.0, c.1);
            i = i + 1;
        }
    }
}

/// The grid after the first `k` places, row by row, have each taken one
/// unit of energy.
pub open spec fn charged(g: Seq<Seq<u8>>, k: int) -> Seq<Seq<u8>>
    decreases k,
{
    if k <= 0 {
        g
    } else {
        inc_spec(charged(g, k - 1), (k - 1) / 10, (k - 1) % 10)
    }
}

pub proof fn lemma_charged(g: Seq<Seq<u8>>, k: int)
    requires
        shaped(g),
    ensures
        shaped(charged(g, k)),
    decreases k,
{
    if k > 0 {
        lemma_charged(g, k - 1);
        lemma_inc(charged(g, k - 1), (k - 1) / 10, (k - 1) % 10);
    }
}

/// The number of places among the first `k`, row by row, that have
/// flashed.
pub open spec fn flashed(g: Seq<Seq<u8>>, k: int) -> int
    decreases k,
{
    if k <= 0 {
        0
    } else {
        flashed(g, k - 1) + (if g[(k - 1) / 10][(k - 1) % 10] == 10 {
            1int
        } else {
            0int
        })
    }
}

/// The grid with the first `k` places, row by row, brought back to 0
/// where they have flashed.
pub open spec fn rested(g: Seq<Seq<u8>>, k: int) -> Seq<Seq<u8>>
    decreases k,
{
    if k <= 0 {
        g
    } else {
        let h = rested(g, k - 1);
        if h[(k - 1) / 10][(k - 1) % 10] == 10 {
            put(h, (k - 1) / 10, (k - 1) % 10, 0)
        } else {
            h
        }
    }
}

pub proof fn lemma_flashed_bound(g: Seq<Seq<u8>>, k: int)
    ensures
        0 <= flashed(g, k),
        k >= 0 ==> flashed(g, k) <= k,
    decreases k,
{
    if k > 0 {
        lemma_flashed_bound(g, k - 1);
    }
}

/// One step: every place takes one unit of energy, then the places that
/// have flashed are counted and brought back to 0.
pub fn tick(data: &mut Vec<Vec<u8>>) -> (ret: u32)
    requires
        shaped(grid_view(old(data)@)),
    ensures
        shaped(grid_view(final(data)@)),
        ret == flashed(charged(grid_view(old(data)@), 100), 100),
        grid_view(final(data)@) == rested(charged(grid_view(old(data)@), 100), 100),
        (forall|c: int| 0 <= c < 100 ==> #[trigger] level(grid_view(old(data)@), c) <= 9) ==> blaze(
            grid_view(old(data)@),
            charged(grid_view(old(data)@), 100),
        ),
{
    let ghost g0 = grid_view(data@);
    proof {
        if forall|c: int| 0 <= c < 100 ==> #[trigger] level(g0, c) <= 9 {
            lemma_blaze(g0);
        }
    }
    let mut y: usize = 0;
    while y < 10
        invariant
            y <= 10,
            shaped(grid_view(data@)),
            grid_view(data@) == charged(g0, 10 * y),
        decreases 10 - y,
    {
        let mut x: usize = 0;
        while x < 10
            invariant
                x <= 10,
                y < 10,
                shaped(grid_view(data@)),
                grid_view(data@) == charged(g0, 10 * y + x),
            decreases 10 - x,
        {
            inc_pos(data, y, x);
            x = x + 1;
        }
        y = y + 1;
    }
    let ghost g1 = grid_view(data@);
    let mut ret: u32 = 0;
    let mut y: usize = 0;
    while y < 10
        invariant
            y <= 10,
            shaped(grid_view(data@)),
            shaped(g1),
            ret == flashed(g1, 10 * y),
            ret <= 10 * y,
            grid_view(data@) == rested(g1, 10 * y),
            forall|k: int| 10 * y <= k < 100 ==> #[trigger] grid_view(data@)[k / 10][k % 10]
                == g1[k / 10][k % 10],
        decreases 10 - y,
    {
        let mut x: usize = 0;
        while x < 10
            invariant
                x <= 10,
                y < 10,
                shaped(grid_view(data@)),
                shaped(g1),
                ret == flashed(g1, 10 * y + x),
                ret <= 10 * y + x,
                grid_view(data@) == rested(g1, 10 * y + x),
                forall|k: int| 10 * y + x <= k < 100 ==> #[trigger] grid_view(data@)[k / 10][k
                    % 10] == g1[k / 10][k % 10],
            decreases 10 - x,
        {
            let ghost here = grid_view(data@);
            assert(here[y as int] == data@[y as int]@);
            assert(here[(10 * y + x) / 10][(10 * y + x) % 10] == g1[(10 * y + x) / 10][(10 * y
                + x) % 10]);
            if data[y][x] == 10 {
                ret += 1;
                data[y][x] = 0;
                assert(grid_view(data@) =~= put(here, y as int, x as int, 0));
                proof {
                    lemma_put(here, y as int, x as int, 0);
                    assert forall|k: int| 10 * y + x + 1 <= k < 100 implies #[trigger] grid_view(
                        data@,
                    )[k / 10][k % 10] == g1[k / 10][k % 10] by {
                        assert(here[k / 10][k % 10] == g1[k / 10][k % 10]);
                    }
                }
            }
            x = x + 1;
        }
        y = y + 1;
    }
    ret
}

/// Reads the energy levels, one row from each line: the digits of the
/// line.
pub fn read_data(lines: &Vec<Vec<char>>) -> (r: Vec<Vec<u8>>)
    ensures
        r.len() == lines.len(),
        forall|i: int| 0 <= i < r.len() ==> (#[trigger] r[i])@ == heights_of(lines[i]@),
{
    let mut out: Vec<Vec<u8>> = Vec::new();
    let mut i: usize = 0;
    while i < lines.len()
        invariant
            i <= lines.len(),
            out.len() == i,
            forall|k: int| 0 <= k < i ==> (#[trigger] out[k])@ == heights_of(lines[k]@),
        decreases lines.len() - i,
    {
        out.push(read_row(&lines[i]));
        i = i + 1;
    }
    out
}

/// The grid after `n` steps.
pub open spec fn after_steps(g: Seq<Seq<u8>>, n: nat) -> Seq<Seq<u8>>
    decreases n,
{
    if n == 0 {
        g
    } else {
        rested(charged(after_steps(g, (n - 1) as nat), 100), 100)
    }
}

/// The number of flashes in step `n`, counted from 1.
pub open spec fn flashes_in(g: Seq<Seq<u8>>, n: nat) -> int {
    if n == 0 {
        0
    } else {
        flashed(charged(after_steps(g, (n - 1) as nat), 100), 100)
    }
}

/// The first `count` steps: for each its number, counted from 1, and the
/// number of flashes in it.
pub fn tick_it(data: Vec<Vec<u8>>, count: usize) -> (r: Vec<(usize, u32)>)
    requires
        shaped(grid_view(data@)),
    ensures
        r.len() == count,
        forall|i: int|
            0 <= i < count ==> (#[trigger] r[i]).0 == i + 1 && r[i].1 == flashes_in(
                grid_view(data@),
                (i + 1) as nat,
            ),
{
    let mut data = data;
    let ghost g0 = grid_view(data@);
    let mut out: Vec<(usize, u32)> = Vec::new();
    let mut i: usize = 0;
    while i < count
        invariant
            i <= count,
            out.len() == i,
            shaped(grid_view(data@)),
            grid_view(data@) == after_steps(g0, i as nat),
            forall|k: int|
                0 <= k < i ==> (#[trigger] out[k]).0 == k + 1 && out[k].1 == flashes_in(
                    g0,
                    (k + 1) as nat,
                ),
        decreases count - i,
    {
        let n = tick(&mut data);
        out.push((i + 1, n));
        i = i + 1;
    }
    out
}

/// The number of flashes in the first `n` steps.
pub open spec fn flashes_upto(g: Seq<Seq<u8>>, n: nat) -> int
    decreases n,
{
    if n == 0 {
        0
    } else {
        flashes_upto(g, (n - 1) as nat) + flashes_in(g, n)
    }
}

/// Whether all hundred places flash in step `n`.
pub open spec fn all_flash(g: Seq<Seq<u8>>, n: nat) -> bool {
    flashes_in(g, n) == 100
}

/// The number of flashes in the first hundred steps, and the first step
/// in which all places flash. At most `limit` steps are made: where that
/// is under a hundred, the flashes of `limit` steps are counted, and where
/// no step up to `limit` has all places flash, the step is given as 0.
pub fn solve(data: Vec<Vec<u8>>, limit: usize) -> (r: (u32, usize))
    requires
        shaped(grid_view(data@)),
    ensures
        r.0 == flashes_upto(
            grid_view(data@),
            (if limit < 100 {
                limit
            } else {
                100
            }) as nat,
        ),
        r.1 <= limit,
        r.1 == 0 ==> forall|n: nat| 1 <= n <= limit ==> !all_flash(grid_view(data@), n),
        r.1 != 0 ==> all_flash(grid_view(data@), r.1 as nat) && forall|n: nat|
            1 <= n < r.1 ==> !all_flash(grid_view(data@), n),
{
    let mut data = data;
    let ghost g0 = grid_view(data@);
    let mut res_1: u32 = 0;
    let mut res_2: usize = 0;
    let mut i: usize = 0;
    while i < limit && (i < 100 || res_2 == 0)
        invariant
            i <= limit,
            shaped(grid_view(data@)),
            grid_view(data@) == after_steps(g0, i as nat),
            res_1 == flashes_upto(
                g0,
                (if i < 100 {
                    i
                } else {
                    100
                }) as nat,
            ),
            res_1 <= 100 * (if i < 100 {
                i
            } else {
                100
            }),
            res_2 <= i,
            res_2 == 0 ==> forall|n: nat| 1 <= n <= i ==> !all_flash(g0, n),
            res_2 != 0 ==> all_flash(g0, res_2 as nat) && forall|n: nat|
                1 <= n < res_2 ==> !all_flash(g0, n),
        decreases limit - i,
    {
        proof {
            lemma_flashed_bound(charged(after_steps(g0, i as nat), 100), 100);
        }
        let n = tick(&mut data);
        let pos: usize = i + 1;
        assert(n == flashes_in(g0, pos as nat));
        if pos <= 100 {
            res_1 = res_1 + n;
        }
        if res_2 == 0 {
            if n == 100 {
                res_2 = pos;
            }
        }
        i = i + 1;
    }
    (res_1, res_2)
}

} // verus!
