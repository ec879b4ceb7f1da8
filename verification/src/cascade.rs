use crate::octopus::{
    adjacent_spec, adjacent_upto, charged, grid_left, inc_all, inc_spec, lemma_adjacent,
    lemma_inc, lemma_inc_all, lemma_left_bounds, lemma_put, offsets, put, shaped,
};
use vstd::prelude::*;

verus! {

/// The energy level of the place with the number `c`, the places being
/// numbered row by row from 0 to 99.
pub open spec fn level(g: Seq<Seq<u8>>, c: int) -> int {
    g[c / 10][c % 10] as int
}

/// Whether the place `c` has flashed.
pub open spec fn hot(g: Seq<Seq<u8>>, c: int) -> bool {
    level(g, c) == 10
}

/// Whether the places `a` and `b` lie side by side or corner to corner.
pub open spec fn touching(a: int, b: int) -> bool {
    a != b && -1 <= a / 10 - b / 10 <= 1 && -1 <= a % 10 - b % 10 <= 1
}

/// Whether the place `c` has flashed in `r` and had not in `h`.
pub open spec fn fresh(h: Seq<Seq<u8>>, r: Seq<Seq<u8>>, c: int) -> bool {
    hot(r, c) && !hot(h, c)
}

/// The number of places among the first `k` that touch `c` and have
/// flashed in `r` but had not in `h`.
pub open spec fn fresh_near(h: Seq<Seq<u8>>, r: Seq<Seq<u8>>, c: int, k: int) -> int
    decreases k,
{
    if k <= 0 {
        0
    } else {
        fresh_near(h, r, c, k - 1) + (if touching(c, k - 1) && fresh(h, r, k - 1) {
            1int
        } else {
            0int
        })
    }
}

/// How often the place `c` stands in the list from the `i`-th on.
pub open spec fn hits(cells: Seq<(usize, usize)>, i: int, c: int) -> int
    decreases cells.len() - i,
{
    if i < 0 || i >= cells.len() {
        0
    } else {
        hits(cells, i + 1, c) + (if cells[i].0 * 10 + cells[i].1 == c {
            1int
        } else {
            0int
        })
    }
}

/// A level that has taken `v` in all: it stops at 10.
pub open spec fn capped(v: int) -> int {
    if v >= 10 {
        10
    } else {
        v
    }
}

/// Whether the grid has its shape and no level above 10.
pub open spec fn sane(g: Seq<Seq<u8>>) -> bool {
    shaped(g) && forall|c: int| 0 <= c < 100 ==> #[trigger] level(g, c) <= 10
}

/// Whether every place that has flashed in `h` has flashed in `r`.
pub open spec fn grows(h: Seq<Seq<u8>>, r: Seq<Seq<u8>>) -> bool {
    forall|c: int| 0 <= c < 100 ==> #[trigger] hot(h, c) ==> hot(r, c)
}

/// Whether every place has in `r` the level that it had in `h` and what
/// it has taken since: `extra(c)` units of its own, and one unit from
/// every place touching it that has flashed since.
pub open spec fn fed(h: Seq<Seq<u8>>, r: Seq<Seq<u8>>, extra: spec_fn(int) -> int) -> bool {
    forall|c: int|
        0 <= c < 100 ==> #[trigger] level(r, c) == capped(
            level(h, c) + extra(c) + fresh_near(h, r, c, 100),
        )
}

pub proof fn lemma_cell(c: int)
    requires
        0 <= c < 100,
    ensures
        0 <= c / 10 < 10,
        0 <= c % 10 < 10,
        (c / 10) * 10 + c % 10 == c,
{
}

pub proof fn lemma_fresh_near_bounds(h: Seq<Seq<u8>>, r: Seq<Seq<u8>>, c: int, k: int)
    ensures
        0 <= fresh_near(h, r, c, k),
    decreases k,
{
    if k > 0 {
        lemma_fresh_near_bounds(h, r, c, k - 1);
    }
}

/// Where no place has flashed since, no place has taken anything from a
/// flash.
pub proof fn lemma_fresh_none(h: Seq<Seq<u8>>, r: Seq<Seq<u8>>, c: int, k: int)
    requires
        0 <= k <= 100,
        forall|n: int| 0 <= n < 100 ==> !#[trigger] fresh(h, r, n),
    ensures
        fresh_near(h, r, c, k) == 0,
    decreases k,
{
    if k > 0 {
        lemma_fresh_none(h, r, c, k - 1);
        assert(!fresh(h, r, k - 1));
    }
}

/// Where just the place `t` has flashed since, the places touching it
/// have taken one unit from a flash, and no others.
pub proof fn lemma_fresh_one(h: Seq<Seq<u8>>, r: Seq<Seq<u8>>, c: int, t: int, k: int)
    requires
        0 <= k <= 100,
        0 <= t < 100,
        forall|n: int| 0 <= n < 100 ==> (#[trigger] fresh(h, r, n) <==> n == t),
    ensures
        fresh_near(h, r, c, k) == (if touching(c, t) && t < k {
            1int
        } else {
            0int
        }),
    decreases k,
{
    if k > 0 {
        lemma_fresh_one(h, r, c, t, k - 1);
        assert(fresh(h, r, k - 1) <==> k - 1 == t);
    }
}

/// What has flashed since `h` has flashed either by `m` or since `m`.
pub proof fn lemma_fresh_split(h: Seq<Seq<u8>>, m: Seq<Seq<u8>>, r: Seq<Seq<u8>>, c: int, k: int)
    requires
        0 <= k <= 100,
        grows(h, m),
        grows(m, r),
    ensures
        fresh_near(h, r, c, k) == fresh_near(h, m, c, k) + fresh_near(m, r, c, k),
    decreases k,
{
    if k > 0 {
        lemma_fresh_split(h, m, r, c, k - 1);
        let n = k - 1;
        assert(hot(h, n) ==> hot(m, n));
        assert(hot(m, n) ==> hot(r, n));
    }
}

pub proof fn lemma_hits_push(cells: Seq<(usize, usize)>, e: (usize, usize), i: int, c: int)
    requires
        0 <= i <= cells.len(),
    ensures
        hits(cells.push(e), i, c) == hits(cells, i, c) + (if e.0 * 10 + e.1 == c {
            1int
        } else {
            0int
        }),
    decreases cells.len() - i,
{
    let all = cells.push(e);
    if i < cells.len() {
        lemma_hits_push(cells, e, i + 1, c);
        assert(all[i] == cells[i]);
    } else {
        assert(all[i] == e);
        assert(hits(all, i + 1, c) == 0);
    }
}

/// How many of the first `k` steps lead from `(y, x)` to the place `c`.
pub open spec fn steps_to(y: int, x: int, c: int, k: int) -> int
    decreases k,
{
    if k <= 0 {
        0
    } else {
        let o = offsets()[k - 1];
        steps_to(y, x, c, k - 1) + (if 0 <= y + o.0 < 10 && 0 <= x + o.1 < 10 && (y + o.0) * 10 + (
        x + o.1) == c {
            1int
        } else {
            0int
        })
    }
}

pub proof fn lemma_hits_upto(y: int, x: int, c: int, k: int)
    requires
        0 <= k <= 8,
    ensures
        hits(adjacent_upto(y, x, k), 0, c) == steps_to(y, x, c, k),
    decreases k,
{
    if k > 0 {
        lemma_hits_upto(y, x, c, k - 1);
        let o = offsets()[k - 1];
        let rest = adjacent_upto(y, x, k - 1);
        if 0 <= y + o.0 < 10 && 0 <= x + o.1 < 10 {
            lemma_hits_push(rest, ((y + o.0) as usize, (x + o.1) as usize), 0, c);
        }
    }
}

pub proof fn lemma_steps_to(y: int, x: int, cy: int, cx: int)
    requires
        0 <= y < 10,
        0 <= x < 10,
        0 <= cy < 10,
        0 <= cx < 10,
    ensures
        steps_to(y, x, cy * 10 + cx, 8) == (if !(cy == y && cx == x) && -1 <= cy - y <= 1 && -1
            <= cx - x <= 1 {
            1int
        } else {
            0int
        }),
{
    reveal_with_fuel(steps_to, 9);
    assert(offsets()[0] == (-1int, -1int) && offsets()[1] == (-1int, 0int) && offsets()[2] == (
        -1int,
        1int,
    ) && offsets()[3] == (0int, -1int) && offsets()[4] == (0int, 1int) && offsets()[5] == (
        1int,
        -1int,
    ) && offsets()[6] == (1int, 0int) && offsets()[7] == (1int, 1int));
}

/// A place stands once among the places around every place that it
/// touches, and not among those around any other.
pub proof fn lemma_hits_adjacent(y: int, x: int, c: int)
    requires
        0 <= y < 10,
        0 <= x < 10,
        0 <= c < 100,
    ensures
        hits(adjacent_spec(y, x), 0, c) == (if touching(c, y * 10 + x) {
            1int
        } else {
            0int
        }),
{
    lemma_hits_upto(y, x, c, 8);
    let t = y * 10 + x;
    assert(t / 10 == y && t % 10 == x);
    lemma_cell(c);
    lemma_steps_to(y, x, c / 10, c % 10);
}

pub proof fn lemma_level_put(g: Seq<Seq<u8>>, y: int, x: int, v: u8, c: int)
    requires
        shaped(g),
        0 <= y < 10,
        0 <= x < 10,
        0 <= c < 100,
    ensures
        level(put(g, y, x, v), c) == (if c == y * 10 + x {
            v as int
        } else {
            level(g, c)
        }),
{
    let h = put(g, y, x, v);
    let t = y * 10 + x;
    assert(t / 10 == y && t % 10 == x);
    if c / 10 == y {
        assert(h[c / 10] == g[y].update(x, v));
    } else {
        assert(h[c / 10] == g[c / 10]);
    }
}

/// What one unit of energy for the place `(y, x)` comes to: the place
/// takes it, and every place takes one unit from each place touching it
/// that has flashed in the course of it.
pub proof fn lemma_inc_fed(h: Seq<Seq<u8>>, y: int, x: int)
    requires
        sane(h),
        0 <= y < 10,
        0 <= x < 10,
    ensures
        sane(inc_spec(h, y, x)),
        grows(h, inc_spec(h, y, x)),
        fed(
            h,
            inc_spec(h, y, x),
            |c: int|
                if c == y * 10 + x {
                    1int
                } else {
                    0int
                },
        ),
    decreases grid_left(h), 0int, 0int,
{
    let r = inc_spec(h, y, x);
    let t = y * 10 + x;
    assert(t / 10 == y && t % 10 == x);
    assert(level(h, t) == h[y][x]);
    if h[y][x] <= 8 {
        let v = (h[y][x] + 1) as u8;
        lemma_put(h, y, x, v);
        assert forall|c: int| 0 <= c < 100 implies #[trigger] level(r, c) == (if c == t {
            v as int
        } else {
            level(h, c)
        }) by {
            lemma_level_put(h, y, x, v, c);
        }
        assert forall|n: int| 0 <= n < 100 implies !#[trigger] fresh(h, r, n) by {
            assert(level(r, n) == (if n == t {
                v as int
            } else {
                level(h, n)
            }));
        }
        assert forall|c: int| 0 <= c < 100 implies #[trigger] level(r, c) == capped(
            level(h, c) + (if c == t {
                1int
            } else {
                0int
            }) + fresh_near(h, r, c, 100),
        ) by {
            lemma_fresh_none(h, r, c, 100);
            assert(level(h, c) <= 10);
        }
    } else if h[y][x] == 9 {
        let m = put(h, y, x, 10);
        let around = adjacent_spec(y, x);
        lemma_put(h, y, x, 10);
        lemma_left_bounds(h);
        lemma_left_bounds(m);
        lemma_adjacent(y, x, 8);
        assert forall|c: int| 0 <= c < 100 implies #[trigger] level(m, c) == (if c == t {
            10int
        } else {
            level(h, c)
        }) by {
            lemma_level_put(h, y, x, 10, c);
        }
        assert(sane(m)) by {
            assert forall|c: int| 0 <= c < 100 implies #[trigger] level(m, c) <= 10 by {
                assert(level(h, c) <= 10);
            }
        }
        lemma_inc_all_fed(m, around, 0);
        assert(r == inc_all(m, around, 0));
        assert forall|c: int| 0 <= c < 100 && #[trigger] hot(h, c) implies hot(m, c) by {
            assert(level(m, c) == (if c == t {
                10int
            } else {
                level(h, c)
            }));
        }
        assert(grows(h, m));
        assert forall|c: int| 0 <= c < 100 && #[trigger] hot(h, c) implies hot(r, c) by {
            assert(hot(m, c));
        }
        assert forall|n: int| 0 <= n < 100 implies (#[trigger] fresh(h, m, n) <==> n == t) by {
            assert(level(m, n) == (if n == t {
                10int
            } else {
                level(h, n)
            }));
        }
        assert forall|c: int| 0 <= c < 100 implies #[trigger] level(r, c) == capped(
            level(h, c) + (if c == t {
                1int
            } else {
                0int
            }) + fresh_near(h, r, c, 100),
        ) by {
            lemma_fresh_split(h, m, r, c, 100);
            lemma_fresh_one(h, m, c, t, 100);
            lemma_fresh_near_bounds(m, r, c, 100);
            lemma_hits_adjacent(y, x, c);
            assert(level(m, c) == (if c == t {
                10int
            } else {
                level(h, c)
            }));
            assert(level(r, c) == capped(level(m, c) + hits(around, 0, c) + fresh_near(m, r, c, 100)));
        }
    } else {
        assert(r == h);
        assert forall|n: int| 0 <= n < 100 implies !#[trigger] fresh(h, r, n) by {}
        assert forall|c: int| 0 <= c < 100 implies #[trigger] level(r, c) == capped(
            level(h, c) + (if c == t {
                1int
            } else {
                0int
            }) + fresh_near(h, r, c, 100),
        ) by {
            lemma_fresh_none(h, r, c, 100);
            assert(level(h, c) <= 10);
            assert(level(h, t) == 10);
        }
    }
}

/// What one unit of energy for each place of a list comes to.
pub proof fn lemma_inc_all_fed(h: Seq<Seq<u8>>, cells: Seq<(usize, usize)>, i: int)
    requires
        sane(h),
        0 <= i,
        forall|j: int| 0 <= j < cells.len() ==> (#[trigger] cells[j]).0 < 10 && cells[j].1 < 10,
    ensures
        sane(inc_all(h, cells, i)),
        grows(h, inc_all(h, cells, i)),
        fed(h, inc_all(h, cells, i), |c: int| hits(cells, i, c)),
    decreases grid_left(h), 1int, cells.len() - i,
{
    let r = inc_all(h, cells, i);
    if i >= cells.len() {
        assert(r == h);
        assert forall|n: int| 0 <= n < 100 implies !#[trigger] fresh(h, r, n) by {}
        assert forall|c: int| 0 <= c < 100 implies #[trigger] level(r, c) == capped(
            level(h, c) + hits(cells, i, c) + fresh_near(h, r, c, 100),
        ) by {
            lemma_fresh_none(h, r, c, 100);
            assert(level(h, c) <= 10);
        }
    } else {
        let y = cells[i].0 as int;
        let x = cells[i].1 as int;
        let m = inc_spec(h, y, x);
        lemma_inc(h, y, x);
        lemma_left_bounds(h);
        lemma_left_bounds(m);
        lemma_inc_fed(h, y, x);
        lemma_inc_all_fed(m, cells, i + 1);
        assert(r == inc_all(m, cells, i + 1));
        assert forall|c: int| 0 <= c < 100 && #[trigger] hot(h, c) implies hot(r, c) by {
            assert(hot(m, c));
        }
        assert forall|c: int| 0 <= c < 100 implies #[trigger] level(r, c) == capped(
            level(h, c) + hits(cells, i, c) + fresh_near(h, r, c, 100),
        ) by {
            lemma_fresh_split(h, m, r, c, 100);
            lemma_fresh_near_bounds(h, m, c, 100);
            lemma_fresh_near_bounds(m, r, c, 100);
            lemma_hits_nonneg(cells, i + 1, c);
            assert(level(h, c) <= 10);
            assert(level(m, c) == capped(level(h, c) + (if c == y * 10 + x {
                1int
            } else {
                0int
            }) + fresh_near(h, m, c, 100)));
            assert(level(r, c) == capped(level(m, c) + hits(cells, i + 1, c) + fresh_near(
                m,
                r,
                c,
                100,
            )));
        }
    }
}

pub proof fn lemma_hits_nonneg(cells: Seq<(usize, usize)>, i: int, c: int)
    ensures
        0 <= hits(cells, i, c),
    decreases cells.len() - i,
{
    if 0 <= i < cells.len() {
        lemma_hits_nonneg(cells, i + 1, c);
    }
}

/// After the first `k` places have each taken one unit of energy, every
/// place has what it had, its unit if it is among them, and one unit
/// from every place touching it that has flashed.
pub proof fn lemma_charged_fed(g: Seq<Seq<u8>>, k: int)
    requires
        sane(g),
        0 <= k <= 100,
    ensures
        sane(charged(g, k)),
        grows(g, charged(g, k)),
        fed(
            g,
            charged(g, k),
            |c: int|
                if c < k {
                    1int
                } else {
                    0int
                },
        ),
    decreases k,
{
    let r = charged(g, k);
    if k <= 0 {
        assert forall|n: int| 0 <= n < 100 implies !#[trigger] fresh(g, r, n) by {}
        assert forall|c: int| 0 <= c < 100 implies #[trigger] level(r, c) == capped(
            level(g, c) + (if c < k {
                1int
            } else {
                0int
            }) + fresh_near(g, r, c, 100),
        ) by {
            lemma_fresh_none(g, r, c, 100);
            assert(level(g, c) <= 10);
        }
    } else {
        let m = charged(g, k - 1);
        let t = k - 1;
        lemma_cell(t);
        lemma_charged_fed(g, k - 1);
        lemma_inc_fed(m, t / 10, t % 10);
        assert forall|c: int| 0 <= c < 100 && #[trigger] hot(g, c) implies hot(r, c) by {
            assert(hot(m, c));
        }
        assert forall|c: int| 0 <= c < 100 implies #[trigger] level(r, c) == capped(
            level(g, c) + (if c < k {
                1int
            } else {
                0int
            }) + fresh_near(g, r, c, 100),
        ) by {
            lemma_fresh_split(g, m, r, c, 100);
            lemma_fresh_near_bounds(g, m, c, 100);
            lemma_fresh_near_bounds(m, r, c, 100);
            assert(level(g, c) <= 10);
            assert(level(m, c) == capped(level(g, c) + (if c < k - 1 {
                1int
            } else {
                0int
            }) + fresh_near(g, m, c, 100)));
            assert(level(r, c) == capped(level(m, c) + (if c == (t / 10) * 10 + t % 10 {
                1int
            } else {
                0int
            }) + fresh_near(m, r, c, 100)));
        }
    }
}

/// The number of places among the first `k` that touch `c` and belong to
/// `s`.
pub open spec fn set_near(s: spec_fn(int) -> bool, c: int, k: int) -> int
    decreases k,
{
    if k <= 0 {
        0
    } else {
        set_near(s, c, k - 1) + (if touching(c, k - 1) && s(k - 1) {
            1int
        } else {
            0int
        })
    }
}

/// The number of places among the first `k` that touch `c`, belong to
/// `s` and have not flashed.
pub open spec fn pending(s: spec_fn(int) -> bool, h: Seq<Seq<u8>>, c: int, k: int) -> int
    decreases k,
{
    if k <= 0 {
        0
    } else {
        pending(s, h, c, k - 1) + (if touching(c, k - 1) && s(k - 1) && !hot(h, k - 1) {
            1int
        } else {
            0int
        })
    }
}

/// Whether `s` holds every place that flashes once the places of `s`
/// have: a place that reaches the level 10 by its own unit of energy and
/// one unit from every place of `s` touching it.
pub open spec fn closed(g: Seq<Seq<u8>>, s: spec_fn(int) -> bool) -> bool {
    forall|c: int| 0 <= c < 100 && level(g, c) + 1 + #[trigger] set_near(s, c, 100) >= 10 ==> s(c)
}

/// Whether the grid stays within `s`: only places of `s` have flashed,
/// and no other place can reach the level 10 by the `spare(c)` units that
/// it may still take of its own and one unit from every place of `s`
/// touching it that has not flashed yet.
pub open spec fn within(
    h: Seq<Seq<u8>>,
    s: spec_fn(int) -> bool,
    spare: spec_fn(int) -> int,
) -> bool {
    &&& forall|c: int| 0 <= c < 100 && #[trigger] hot(h, c) ==> s(c)
    &&& forall|c: int|
        0 <= c < 100 && !s(c) ==> #[trigger] level(h, c) + spare(c) + pending(s, h, c, 100) <= 9
}

pub proof fn lemma_pending_bounds(s: spec_fn(int) -> bool, h: Seq<Seq<u8>>, c: int, k: int)
    ensures
        0 <= pending(s, h, c, k) <= set_near(s, c, k),
    decreases k,
{
    if k > 0 {
        lemma_pending_bounds(s, h, c, k - 1);
    }
}

/// The places of `s` that had not flashed have flashed since or have not
/// flashed yet.
pub proof fn lemma_pending_split(
    s: spec_fn(int) -> bool,
    h: Seq<Seq<u8>>,
    r: Seq<Seq<u8>>,
    c: int,
    k: int,
)
    requires
        0 <= k <= 100,
        grows(h, r),
        forall|n: int| 0 <= n < 100 && #[trigger] hot(r, n) ==> s(n),
    ensures
        pending(s, h, c, k) == pending(s, r, c, k) + fresh_near(h, r, c, k),
    decreases k,
{
    if k > 0 {
        lemma_pending_split(s, h, r, c, k - 1);
        let n = k - 1;
        assert(hot(h, n) ==> hot(r, n));
        assert(hot(r, n) ==> s(n));
    }
}

/// One unit of energy for a place keeps the grid within `s`.
pub proof fn lemma_inc_within(
    h: Seq<Seq<u8>>,
    y: int,
    x: int,
    s: spec_fn(int) -> bool,
    spare: spec_fn(int) -> int,
)
    requires
        sane(h),
        0 <= y < 10,
        0 <= x < 10,
        forall|c: int| 0 <= c < 100 ==> #[trigger] spare(c) >= 0,
        within(
            h,
            s,
            |c: int|
                spare(c) + (if c == y * 10 + x {
                    1int
                } else {
                    0int
                }),
        ),
    ensures
        within(inc_spec(h, y, x), s, spare),
    decreases grid_left(h), 0int, 0int,
{
    let r = inc_spec(h, y, x);
    let t = y * 10 + x;
    assert(t / 10 == y && t % 10 == x);
    assert(level(h, t) == h[y][x]);
    lemma_inc_fed(h, y, x);
    if h[y][x] == 9 {
        let m = put(h, y, x, 10);
        let around = adjacent_spec(y, x);
        lemma_put(h, y, x, 10);
        lemma_left_bounds(h);
        lemma_left_bounds(m);
        lemma_adjacent(y, x, 8);
        assert(s(t)) by {
            if !s(t) {
                lemma_pending_bounds(s, h, t, 100);
                assert(spare(t) >= 0);
                assert(level(h, t) + (spare(t) + 1) + pending(s, h, t, 100) <= 9);
            }
        }
        assert forall|c: int| 0 <= c < 100 implies #[trigger] level(m, c) == (if c == t {
            10int
        } else {
            level(h, c)
        }) by {
            lemma_level_put(h, y, x, 10, c);
        }
        assert(sane(m)) by {
            assert forall|c: int| 0 <= c < 100 implies #[trigger] level(m, c) <= 10 by {
                assert(level(h, c) <= 10);
            }
        }
        assert forall|c: int| 0 <= c < 100 && #[trigger] hot(h, c) implies hot(m, c) by {
            assert(level(m, c) == (if c == t {
                10int
            } else {
                level(h, c)
            }));
        }
        assert forall|n: int| 0 <= n < 100 && #[trigger] hot(m, n) implies s(n) by {
            assert(level(m, n) == (if n == t {
                10int
            } else {
                level(h, n)
            }));
            if n != t {
                assert(hot(h, n));
            }
        }
        assert forall|n: int| 0 <= n < 100 implies (#[trigger] fresh(h, m, n) <==> n == t) by {
            assert(level(m, n) == (if n == t {
                10int
            } else {
                level(h, n)
            }));
        }
        let more = |c: int| spare(c) + hits(around, 0, c);
        assert forall|c: int| 0 <= c < 100 && !s(c) implies #[trigger] level(m, c) + more(c)
            + pending(s, m, c, 100) <= 9 by {
            lemma_pending_split(s, h, m, c, 100);
            lemma_fresh_one(h, m, c, t, 100);
            lemma_hits_adjacent(y, x, c);
            assert(level(m, c) == level(h, c));
            assert(level(h, c) + (spare(c) + (if c == t {
                1int
            } else {
                0int
            })) + pending(s, h, c, 100) <= 9);
        }
        assert(within(m, s, more));
        lemma_inc_all_within(m, around, 0, s, spare);
    } else {
        assert forall|c: int| 0 <= c < 100 && #[trigger] hot(r, c) implies s(c) by {
            if h[y][x] <= 8 {
                lemma_level_put(h, y, x, (h[y][x] + 1) as u8, c);
            }
            assert(hot(h, c));
        }
        assert forall|c: int| 0 <= c < 100 && !s(c) implies #[trigger] level(r, c) + spare(c)
            + pending(s, r, c, 100) <= 9 by {
            lemma_pending_split(s, h, r, c, 100);
            lemma_fresh_near_bounds(h, r, c, 100);
            assert(level(r, c) == capped(level(h, c) + (if c == t {
                1int
            } else {
                0int
            }) + fresh_near(h, r, c, 100)));
            assert(level(h, c) + (spare(c) + (if c == t {
                1int
            } else {
                0int
            })) + pending(s, h, c, 100) <= 9);
        }
    }
}

/// One unit of energy for each place of a list keeps the grid within
/// `s`.
pub proof fn lemma_inc_all_within(
    h: Seq<Seq<u8>>,
    cells: Seq<(usize, usize)>,
    i: int,
    s: spec_fn(int) -> bool,
    spare: spec_fn(int) -> int,
)
    requires
        sane(h),
        0 <= i,
        forall|j: int| 0 <= j < cells.len() ==> (#[trigger] cells[j]).0 < 10 && cells[j].1 < 10,
        forall|c: int| 0 <= c < 100 ==> #[trigger] spare(c) >= 0,
        within(h, s, |c: int| spare(c) + hits(cells, i, c)),
    ensures
        within(inc_all(h, cells, i), s, spare),
    decreases grid_left(h), 1int, cells.len() - i,
{
    let r = inc_all(h, cells, i);
    if i >= cells.len() {
        assert(r == h);
        assert forall|c: int| 0 <= c < 100 && !s(c) implies #[trigger] level(r, c) + spare(c)
            + pending(s, r, c, 100) <= 9 by {
            assert(level(h, c) + (spare(c) + hits(cells, i, c)) + pending(s, h, c, 100) <= 9);
        }
    } else {
        let y = cells[i].0 as int;
        let x = cells[i].1 as int;
        let m = inc_spec(h, y, x);
        lemma_inc(h, y, x);
        lemma_left_bounds(h);
        lemma_left_bounds(m);
        lemma_inc_fed(h, y, x);
        let rest = |c: int| spare(c) + hits(cells, i + 1, c);
        assert forall|c: int| 0 <= c < 100 implies #[trigger] rest(c) >= 0 by {
            lemma_hits_nonneg(cells, i + 1, c);
            assert(spare(c) >= 0);
        }
        assert(within(
            h,
            s,
            |c: int|
                rest(c) + (if c == y * 10 + x {
                    1int
                } else {
                    0int
                }),
        )) by {
            assert forall|c: int| 0 <= c < 100 && !s(c) implies #[trigger] level(h, c) + (rest(c)
                + (if c == y * 10 + x {
                1int
            } else {
                0int
            })) + pending(s, h, c, 100) <= 9 by {
                assert(level(h, c) + (spare(c) + hits(cells, i, c)) + pending(s, h, c, 100) <= 9);
            }
        }
        lemma_inc_within(h, y, x, s, rest);
        assert(within(m, s, |c: int| spare(c) + hits(cells, i + 1, c))) by {
            assert forall|c: int| 0 <= c < 100 && !s(c) implies #[trigger] level(m, c) + (spare(c)
                + hits(cells, i + 1, c)) + pending(s, m, c, 100) <= 9 by {
                assert(level(m, c) + rest(c) + pending(s, m, c, 100) <= 9);
            }
        }
        lemma_inc_all_within(m, cells, i + 1, s, spare);
        assert(r == inc_all(m, cells, i + 1));
    }
}

/// A unit of energy for each of the first `k` places keeps the grid
/// within `s`.
pub proof fn lemma_charged_within(g: Seq<Seq<u8>>, k: int, s: spec_fn(int) -> bool)
    requires
        sane(g),
        0 <= k <= 100,
        within(g, s, |c: int| 1int),
    ensures
        within(
            charged(g, k),
            s,
            |c: int|
                if c < k {
                    0int
                } else {
                    1int
                },
        ),
    decreases k,
{
    let r = charged(g, k);
    if k <= 0 {
        assert forall|c: int| 0 <= c < 100 && !s(c) implies #[trigger] level(r, c) + (if c < k {
            0int
        } else {
            1int
        }) + pending(s, r, c, 100) <= 9 by {
            assert(level(g, c) + 1 + pending(s, g, c, 100) <= 9);
        }
    } else {
        let m = charged(g, k - 1);
        let t = k - 1;
        lemma_cell(t);
        lemma_charged_within(g, k - 1, s);
        lemma_charged_fed(g, k - 1);
        let spare = |c: int|
            if c < k {
                0int
            } else {
                1int
            };
        assert(within(
            m,
            s,
            |c: int|
                spare(c) + (if c == (t / 10) * 10 + t % 10 {
                    1int
                } else {
                    0int
                }),
        )) by {
            assert forall|c: int| 0 <= c < 100 && !s(c) implies #[trigger] level(m, c) + (spare(c)
                + (if c == (t / 10) * 10 + t % 10 {
                1int
            } else {
                0int
            })) + pending(s, m, c, 100) <= 9 by {
                assert(level(m, c) + (if c < k - 1 {
                    0int
                } else {
                    1int
                }) + pending(s, m, c, 100) <= 9);
            }
        }
        lemma_inc_within(m, t / 10, t % 10, s, spare);
    }
}

/// The number of places among the first `k` that touch `c` and have
/// flashed.
pub open spec fn hot_near(r: Seq<Seq<u8>>, c: int, k: int) -> int
    decreases k,
{
    if k <= 0 {
        0
    } else {
        hot_near(r, c, k - 1) + (if touching(c, k - 1) && hot(r, k - 1) {
            1int
        } else {
            0int
        })
    }
}

/// Whether `r` is what a step makes of `g` before the places that have
/// flashed come to rest: every place has taken its own unit of energy
/// and one unit from every place touching it that has flashed, a place
/// has flashed when it has reached the level 10, and no place has flashed
/// that need not have: every set of places that holds what flashes once
/// its places have flashed holds all that have.
pub open spec fn blaze(g: Seq<Seq<u8>>, r: Seq<Seq<u8>>) -> bool {
    &&& sane(r)
    &&& forall|c: int|
        0 <= c < 100 ==> #[trigger] level(r, c) == capped(level(g, c) + 1 + hot_near(r, c, 100))
    &&& forall|s: spec_fn(int) -> bool, c: int|
        #![trigger closed(g, s), hot(r, c)]
        closed(g, s) && 0 <= c < 100 && hot(r, c) ==> s(c)
}

pub proof fn lemma_hot_near(g: Seq<Seq<u8>>, r: Seq<Seq<u8>>, c: int, k: int)
    requires
        0 <= k <= 100,
        forall|n: int| 0 <= n < 100 ==> !#[trigger] hot(g, n),
    ensures
        fresh_near(g, r, c, k) == hot_near(r, c, k),
    decreases k,
{
    if k > 0 {
        lemma_hot_near(g, r, c, k - 1);
        assert(!hot(g, k - 1));
    }
}

pub proof fn lemma_pending_fresh(s: spec_fn(int) -> bool, g: Seq<Seq<u8>>, c: int, k: int)
    requires
        0 <= k <= 100,
        forall|n: int| 0 <= n < 100 ==> !#[trigger] hot(g, n),
    ensures
        pending(s, g, c, k) == set_near(s, c, k),
    decreases k,
{
    if k > 0 {
        lemma_pending_fresh(s, g, c, k - 1);
        assert(!hot(g, k - 1));
    }
}

/// A unit of energy for every place of a grid on which no place is about
/// to flash or has flashed makes the places blaze as little as can be.
pub proof fn lemma_blaze(g: Seq<Seq<u8>>)
    requires
        shaped(g),
        forall|c: int| 0 <= c < 100 ==> #[trigger] level(g, c) <= 9,
    ensures
        blaze(g, charged(g, 100)),
{
    let r = charged(g, 100);
    assert(sane(g));
    assert forall|n: int| 0 <= n < 100 implies !#[trigger] hot(g, n) by {
        assert(level(g, n) <= 9);
    }
    lemma_charged_fed(g, 100);
    assert forall|c: int| 0 <= c < 100 implies #[trigger] level(r, c) == capped(
        level(g, c) + 1 + hot_near(r, c, 100),
    ) by {
        lemma_hot_near(g, r, c, 100);
        assert(level(r, c) == capped(level(g, c) + (if c < 100 {
            1int
        } else {
            0int
        }) + fresh_near(g, r, c, 100)));
    }
    assert forall|s: spec_fn(int) -> bool, c: int|
        #![trigger closed(g, s), hot(r, c)]
        closed(g, s) && 0 <= c < 100 && hot(r, c) implies s(c) by {
        assert(within(g, s, |c: int| 1int)) by {
            assert forall|n: int| 0 <= n < 100 && !s(n) implies #[trigger] level(g, n) + 1
                + pending(s, g, n, 100) <= 9 by {
                lemma_pending_fresh(s, g, n, 100);
                assert(level(g, n) + 1 + set_near(s, n, 100) >= 10 ==> s(n));
            }
        }
        lemma_charged_within(g, 100, s);
    }
}

} // verus!
