use crate::text;
use vstd::prelude::*;

verus! {

/// A fold of the sheet: along a horizontal line, the lower part going up,
/// or along a vertical line, the right part going left.
#[derive(Copy, Clone, Debug)]
pub enum Fold {
    Up(u32),
    Left(u32),
}

/// Where a coordinate lands when the sheet is folded at `r`.
pub open spec fn reflect_spec(a: int, r: int) -> int {
    if a > r {
        2 * r - a
    } else {
        a
    }
}

/// Where a coordinate lands when the sheet is folded at `r`.
pub fn reflect(a: u32, r: u32) -> (v: u32)
    requires
        a > r ==> a <= 2 * r,
    ensures
        v == reflect_spec(a as int, r as int),
{
    if a > r {
        r - (a - r)
    } else {
        a
    }
}

/// Where a dot lands under a fold.
pub open spec fn folded(p: (u32, u32), fold: Fold) -> (int, int) {
    match fold {
        Fold::Up(n) => (p.0 as int, reflect_spec(p.1 as int, n as int)),
        Fold::Left(n) => (reflect_spec(p.0 as int, n as int), p.1 as int),
    }
}

/// Whether a dot can be folded: it does not lie more than twice as far
/// out as the fold line.
pub open spec fn foldable(p: (u32, u32), fold: Fold) -> bool {
    match fold {
        Fold::Up(n) => p.1 > n ==> p.1 <= 2 * n,
        Fold::Left(n) => p.0 > n ==> p.0 <= 2 * n,
    }
}

fn has_dot(map: &Vec<(u32, u32)>, p: (u32, u32)) -> (r: bool)
    ensures
        r == map@.contains(p),
{
    let mut i: usize = 0;
    while i < map.len()
        invariant
            i <= map.len(),
            forall|k: int| 0 <= k < i ==> map@[k] != p,
        decreases map.len() - i,
    {
        if map[i].0 == p.0 && map[i].1 == p.1 {
            return true;
        }
        i = i + 1;
    }
    false
}

pub proof fn lemma_push_contains(s: Seq<(u32, u32)>, e: (u32, u32), q: (u32, u32))
    ensures
        s.push(e).contains(q) <==> s.contains(q) || e == q,
{
    let t = s.push(e);
    if s.contains(q) {
        let i = choose|i: int| 0 <= i < s.len() && s[i] == q;
        assert(t[i] == q);
    }
    if e == q {
        assert(t[t.len() - 1] == q);
    }
    if t.contains(q) {
        let i = choose|i: int| 0 <= i < t.len() && t[i] == q;
        if i < s.len() {
            assert(s[i] == q);
        }
    }
}

/// Folds the sheet: the result holds each place once where a dot lands.
pub fn apply_fold(old_map: &Vec<(u32, u32)>, fold: Fold) -> (r: Vec<(u32, u32)>)
    requires
        forall|i: int| 0 <= i < old_map.len() ==> foldable(#[trigger] old_map[i], fold),
    ensures
        r@.no_duplicates(),
        forall|q: (u32, u32)| #[trigger]
            r@.contains(q) <==> exists|i: int|
                0 <= i < old_map.len() && folded(#[trigger] old_map[i], fold) == (
                    q.0 as int,
                    q.1 as int,
                ),
{
    let mut out: Vec<(u32, u32)> = Vec::new();
    let mut i: usize = 0;
    while i < old_map.len()
        invariant
            i <= old_map.len(),
            forall|k: int| 0 <= k < old_map.len() ==> foldable(#[trigger] old_map[k], fold),
            out@.no_duplicates(),
            forall|q: (u32, u32)| #[trigger]
                out@.contains(q) <==> exists|k: int|
                    0 <= k < i && folded(#[trigger] old_map[k], fold) == (q.0 as int, q.1 as int),
        decreases old_map.len() - i,
    {
        let p = old_map[i];
        assert(foldable(old_map[i as int], fold));
        let q = match fold {
            Fold::Up(n) => (p.0, reflect(p.1, n)),
            Fold::Left(n) => (reflect(p.0, n), p.1),
        };
        let ghost before = out@;
        let fresh = !has_dot(&out, q);
        if fresh {
            out.push(q);
        }
        proof {
            assert(folded(old_map[i as int], fold) == (q.0 as int, q.1 as int));
            assert forall|c: (u32, u32)| #[trigger]
                out@.contains(c) <==> exists|k: int|
                    0 <= k < i + 1 && folded(#[trigger] old_map[k], fold) == (
                        c.0 as int,
                        c.1 as int,
                    ) by {
                lemma_push_contains(before, q, c);
                if before.contains(c) {
                    let k = choose|k: int|
                        0 <= k < i && folded(#[trigger] old_map[k], fold) == (
                            c.0 as int,
                            c.1 as int,
                        );
                    assert(0 <= k < i + 1);
                }
                if exists|k: int|
                    0 <= k < i + 1 && folded(#[trigger] old_map[k], fold) == (
                        c.0 as int,
                        c.1 as int,
                    ) {
                    let k = choose|k: int|
                        0 <= k < i + 1 && folded(#[trigger] old_map[k], fold) == (
                            c.0 as int,
                            c.1 as int,
                        );
                    if k < i {
                        assert(before.contains(c));
                    } else {
                        assert(c == q);
                    }
                }
            }
            if fresh {
                assert forall|a: int, b: int| 0 <= a < b < out.len() implies out@[a] != out@[b] by {
                    if b == out.len() - 1 {
                        assert(before[a] == out@[a]);
                        if before[a] == q {
                            assert(before.contains(q));
                        }
                    }
                }
            }
        }
        i = i + 1;
    }
    out
}

/// The size of the sheet: one more than the greatest coordinates.
pub fn get_dims(map: &Vec<(u32, u32)>) -> (r: (u32, u32))
    requires
        forall|i: int| 0 <= i < map.len() ==> (#[trigger] map[i]).0 < u32::MAX && map[i].1 < u32::MAX,
    ensures
        r.0 >= 1,
        r.1 >= 1,
        forall|i: int| 0 <= i < map.len() ==> (#[trigger] map[i]).0 < r.0 && map[i].1 < r.1,
        r.0 == 1 || exists|i: int| 0 <= i < map.len() && (#[trigger] map[i]).0 + 1 == r.0,
        r.1 == 1 || exists|i: int| 0 <= i < map.len() && (#[trigger] map[i]).1 + 1 == r.1,
{
    let mut max_x: u32 = 0;
    let mut max_y: u32 = 0;
    let mut i: usize = 0;
    while i < map.len()
        invariant
            i <= map.len(),
            forall|k: int|
                0 <= k < map.len() ==> (#[trigger] map[k]).0 < u32::MAX && map[k].1 < u32::MAX,
            max_x < u32::MAX,
            max_y < u32::MAX,
            forall|k: int| 0 <= k < i ==> (#[trigger] map[k]).0 <= max_x && map[k].1 <= max_y,
            max_x == 0 || exists|k: int| 0 <= k < i && (#[trigger] map[k]).0 == max_x,
            max_y == 0 || exists|k: int| 0 <= k < i && (#[trigger] map[k]).1 == max_y,
        decreases map.len() - i,
    {
        let (x, y) = map[i];
        assert(map[i as int].0 < u32::MAX);
        if x > max_x {
            max_x = x;
        }
        if y > max_y {
            max_y = y;
        }
        proof {
            if max_x != 0 {
                if x == max_x {
                    assert(map[i as int].0 == max_x);
                } else {
                    let k = choose|k: int| 0 <= k < i && (#[trigger] map[k]).0 == max_x;
                    assert(map[k].0 == max_x);
                }
            }
            if max_y != 0 {
                if y == max_y {
                    assert(map[i as int].1 == max_y);
                } else {
                    let k = choose|k: int| 0 <= k < i && (#[trigger] map[k]).1 == max_y;
                    assert(map[k].1 == max_y);
                }
            }
        }
        i = i + 1;
    }
    (max_x + 1, max_y + 1)
}

/// The place of a cursor on a sheet of width `w`, counted row by row;
/// past the end it is the number of places.
pub open spec fn index_of(pos: Option<(u32, u32)>, dims: (u32, u32)) -> int {
    match pos {
        Some((x, y)) => y * dims.0 + x,
        None => dims.1 * dims.0,
    }
}

/// The picture of the places from `from` up to `to`, counted row by row
/// on a sheet of width `w`: `#` where `lit` holds, `.` elsewhere, and a
/// line feed after the last place of every row.
pub open spec fn render(lit: spec_fn(int) -> bool, w: int, from: int, to: int) -> Seq<char>
    decreases to - from,
{
    if to <= from {
        seq![]
    } else {
        render(lit, w, from, to - 1) + (if lit(to - 1) {
            seq!['#']
        } else {
            seq!['.']
        }) + (if to % w == 0 {
            seq!['\n']
        } else {
            seq![]
        })
    }
}

pub proof fn lemma_render_same(
    f: spec_fn(int) -> bool,
    g: spec_fn(int) -> bool,
    w: int,
    from: int,
    to: int,
)
    requires
        forall|k: int| from <= k < to ==> #[trigger] f(k) == g(k),
    ensures
        render(f, w, from, to) == render(g, w, from, to),
    decreases to - from,
{
    if to > from {
        lemma_render_same(f, g, w, from, to - 1);
    }
}

pub proof fn lemma_render_join(lit: spec_fn(int) -> bool, w: int, a: int, b: int, c: int)
    requires
        a <= b <= c,
    ensures
        render(lit, w, a, b) + render(lit, w, b, c) == render(lit, w, a, c),
    decreases c - b,
{
    if c == b {
        assert(render(lit, w, a, b) + render(lit, w, b, c) =~= render(lit, w, a, c));
    } else {
        lemma_render_join(lit, w, a, b, c - 1);
        let last = (if lit(c - 1) {
            seq!['#']
        } else {
            seq!['.']
        }) + (if c % w == 0 {
            seq!['\n']
        } else {
            seq![]
        });
        assert(render(lit, w, b, c) =~= render(lit, w, b, c - 1) + last);
        assert(render(lit, w, a, c) =~= render(lit, w, a, c - 1) + last);
        assert(render(lit, w, a, b) + (render(lit, w, b, c - 1) + last) =~= (render(lit, w, a, b)
            + render(lit, w, b, c - 1)) + last);
    }
}

/// A cursor that draws a sheet row by row; `out` is what it has drawn.
pub struct Cursor {
    pub pos: Option<(u32, u32)>,
    pub dims: (u32, u32),
    pub out: Vec<char>,
}

pub proof fn lemma_cell(w: int, h: int, x: int, y: int)
    requires
        0 <= x < w,
        0 <= y < h,
    ensures
        0 <= y * w + x < h * w,
        (y * w + x + 1) % w == 0 <==> x + 1 == w,
        x + 1 == w ==> (y + 1) * w == y * w + x + 1,
{
    assert(0 <= y * w + x < h * w && ((y * w + x + 1) % w == 0 <==> x + 1 == w) && (x + 1 == w ==> (
    y + 1) * w == y * w + x + 1)) by (nonlinear_arith)
        requires
            0 <= x < w,
            0 <= y < h,
    ;
}

impl Cursor {
    /// Whether the cursor stands on the sheet or past its end.
    pub open spec fn wf(&self) -> bool {
        self.dims.0 >= 1 && self.dims.1 >= 1 && (self.pos matches Some(p) ==> p.0 < self.dims.0
            && p.1 < self.dims.1)
    }

    /// A cursor at the first place of an empty picture.
    pub fn new(dims: (u32, u32)) -> (c: Cursor)
        ensures
            c.pos == Some((0u32, 0u32)),
            c.dims == dims,
            c.out@ == Seq::<char>::empty(),
    {
        Cursor { pos: Some((0, 0)), dims, out: Vec::new() }
    }

    /// Draws empty places up to `pos`.
    pub fn advance_to(&mut self, pos: Option<(u32, u32)>)
        requires
            old(self).wf(),
            pos matches Some(p) ==> p.0 < old(self).dims.0 && p.1 < old(self).dims.1,
            index_of(old(self).pos, old(self).dims) <= index_of(pos, old(self).dims),
        ensures
            final(self).wf(),
            final(self).dims == old(self).dims,
            final(self).pos == pos,
            final(self).out@ == old(self).out@ + render(
                |k: int| false,
                old(self).dims.0 as int,
                index_of(old(self).pos, old(self).dims),
                index_of(pos, old(self).dims),
            ),
    {
        let ghost w = self.dims.0 as int;
        let ghost h = self.dims.1 as int;
        let ghost start = index_of(self.pos, self.dims);
        let ghost goal = index_of(pos, self.dims);
        let ghost blank = |k: int| false;
        proof {
            assert(self.out@ + render(blank, w, start, start) =~= self.out@);
            match pos {
                Some(p) => {
                    lemma_cell(w, h, p.0 as int, p.1 as int);
                },
                None => {},
            }
        }
        loop
            invariant
                self.wf(),
                self.dims == old(self).dims,
                w == self.dims.0,
                h == self.dims.1,
                start == index_of(old(self).pos, old(self).dims),
                goal == index_of(pos, self.dims),
                pos matches Some(p) ==> p.0 < self.dims.0 && p.1 < self.dims.1,
                start <= index_of(self.pos, self.dims) <= goal <= h * w,
                blank == (|k: int| false),
                self.out@ == old(self).out@ + render(
                    blank,
                    w,
                    start,
                    index_of(self.pos, self.dims),
                ),
            decreases goal - index_of(self.pos, self.dims),
        {
            let (mut s_x, mut s_y) = match self.pos {
                Some(p) => {
                    proof {
                        lemma_cell(w, h, p.0 as int, p.1 as int);
                    }
                    match pos {
                        Some(t) => {
                            if p.0 == t.0 && p.1 == t.1 {
                                return ;
                            }
                        },
                        None => {},
                    }
                    p
                },
                None => {
                    assert(pos is None) by {
                        match pos {
                            Some(t) => {
                                lemma_cell(w, h, t.0 as int, t.1 as int);
                            },
                            None => {},
                        }
                    }
                    return ;
                },
            };
            let ghost here = s_y * w + s_x;
            let ghost before = self.out@;
            proof {
                match pos {
                    Some(t) => {
                        lemma_cell(w, h, t.0 as int, t.1 as int);
                        lemma_order_index((s_x, s_y), t, w);
                    },
                    None => {},
                }
                assert(here < goal);
            }
            self.out.push('.');
            s_x += 1;
            if s_x >= self.dims.0 {
                self.out.push('\n');
                s_y += 1;
                s_x = 0;
            }
            if s_y >= self.dims.1 {
                self.pos = None
            } else {
                self.pos = Some((s_x, s_y))
            }
            proof {
                assert(index_of(self.pos, self.dims) == here + 1) by {
                    if s_x == 0 && s_y >= self.dims.1 {
                        assert(s_y * w == h * w) by (nonlinear_arith)
                            requires
                                s_y == h,
                        ;
                    }
                }
                assert(self.out@ =~= before + render(blank, w, here, here + 1)) by {
                    assert(render(blank, w, here, here) =~= seq![]);
                }
                lemma_render_join(blank, w, start, here, here + 1);
                assert(self.out@ =~= old(self).out@ + (render(blank, w, start, here) + render(
                    blank,
                    w,
                    here,
                    here + 1,
                )));
            }
        }
    }

    /// Draws a dot at the cursor.
    pub fn write_dot(&mut self)
        requires
            old(self).wf(),
            old(self).pos is Some,
        ensures
            final(self).wf(),
            final(self).dims == old(self).dims,
            index_of(final(self).pos, final(self).dims) == index_of(old(self).pos, old(self).dims)
                + 1,
            final(self).out@ == old(self).out@ + render(
                |k: int| true,
                old(self).dims.0 as int,
                index_of(old(self).pos, old(self).dims),
                index_of(old(self).pos, old(self).dims) + 1,
            ),
    {
        let ghost w = self.dims.0 as int;
        let ghost h = self.dims.1 as int;
        let ghost before = self.out@;
        let ghost full = |k: int| true;
        match self.pos {
            Some((x, y)) => {
                let ghost here = y * w + x;
                proof {
                    lemma_cell(w, h, x as int, y as int);
                    assert(render(full, w, here, here) =~= seq![]);
                }
                self.out.push('#');
                let mut x = x + 1;
                let mut y = y;
                if x >= self.dims.0 {
                    self.out.push('\n');
                    y = y + 1;
                    x = 0;
                    if y < self.dims.1 {
                        self.pos = Some((x, y));
                    } else {
                        self.pos = None;
                        proof {
                            assert(y * w == h * w) by (nonlinear_arith)
                                requires
                                    y == h,
                            ;
                        }
                    }
                } else {
                    self.pos = Some((x, y));
                }
                assert(self.out@ =~= before + render(full, w, here, here + 1));
            },
            None => {},
        }
    }
}

/// Whether the dots stand in the order of the rows, and within a row in
/// the order of the columns, none twice.
pub open spec fn in_order(s: Seq<(u32, u32)>) -> bool {
    forall|i: int, j: int|
        0 <= i < j < s.len() ==> s[i].1 < s[j].1 || (s[i].1 == s[j].1 && s[i].0 < s[j].0)
}

pub open spec fn before_dot(a: (u32, u32), b: (u32, u32)) -> bool {
    a.1 < b.1 || (a.1 == b.1 && a.0 < b.0)
}

/// Puts the dots in the order of drawing.
pub fn arrange(map: &Vec<(u32, u32)>) -> (r: Vec<(u32, u32)>)
    ensures
        in_order(r@),
        forall|p: (u32, u32)| #[trigger] r@.contains(p) <==> map@.contains(p),
{
    let mut out: Vec<(u32, u32)> = Vec::new();
    let mut i: usize = 0;
    while i < map.len()
        invariant
            i <= map.len(),
            in_order(out@),
            forall|p: (u32, u32)| #[trigger]
                out@.contains(p) <==> map@.subrange(0, i as int).contains(p),
        decreases map.len() - i,
    {
        let p = map[i];
        let ghost before = out@;
        let ghost seen = map@.subrange(0, i as int);
        let mut k: usize = 0;
        while k < out.len() && (out[k].1 < p.1 || (out[k].1 == p.1 && out[k].0 < p.0))
            invariant
                k <= out.len(),
                out@ == before,
                forall|j: int| 0 <= j < k ==> before_dot(out@[j], p),
            decreases out.len() - k,
        {
            k = k + 1;
        }
        let found = k < out.len() && out[k].0 == p.0 && out[k].1 == p.1;
        if !found {
            out.insert(k, p);
        }
        proof {
            assert(map@.subrange(0, i + 1) =~= seen.push(p));
            assert forall|q: (u32, u32)| #[trigger]
                out@.contains(q) <==> map@.subrange(0, i + 1).contains(q) by {
                lemma_push_contains(seen, p, q);
                if before.contains(q) {
                    let j = choose|j: int| 0 <= j < before.len() && before[j] == q;
                    if found || j < k {
                        assert(out@[j] == q);
                    } else {
                        assert(out@[j + 1] == q);
                    }
                }
                if q == p {
                    assert(out@[k as int] == q);
                }
                if out@.contains(q) {
                    let j = choose|j: int| 0 <= j < out.len() && out@[j] == q;
                    if found || j < k {
                        assert(before[j] == q);
                    } else if j > k {
                        assert(before[j - 1] == q);
                    }
                }
            }
            if !found {
                assert forall|a: int, b: int| 0 <= a < b < out.len() implies before_dot(
                    out@[a],
                    out@[b],
                ) by {
                    if b < k {
                        assert(out@[a] == before[a] && out@[b] == before[b]);
                    } else if b == k {
                        assert(out@[a] == before[a]);
                    } else if a < k {
                        assert(out@[a] == before[a] && out@[b] == before[b - 1]);
                        if b - 1 > k {
                            assert(before_dot(before[k as int], before[b - 1]));
                        }
                    } else if a == k {
                        assert(out@[b] == before[b - 1]);
                        if b - 1 > k {
                            assert(before_dot(before[k as int], before[b - 1]));
                        }
                    } else {
                        assert(out@[a] == before[a - 1] && out@[b] == before[b - 1]);
                    }
                }
            }
        }
        i = i + 1;
    }
    assert(map@.subrange(0, i as int) =~= map@);
    out
}

/// Whether the sheet of width `w` has a dot at place `k`, counted row by
/// row.
pub open spec fn dot_at(map: Seq<(u32, u32)>, w: int, k: int) -> bool {
    exists|i: int| 0 <= i < map.len() && (#[trigger] map[i]).1 * w + map[i].0 == k
}

/// The picture of a sheet of dots: `#` for a dot and `.` for none, one
/// line for each row.
pub open spec fn picture(map: Seq<(u32, u32)>, dims: (u32, u32)) -> Seq<char> {
    render(|k: int| dot_at(map, dims.0 as int, k), dims.0 as int, 0, dims.1 * dims.0)
}

pub proof fn lemma_order_index(a: (u32, u32), b: (u32, u32), w: int)
    requires
        a.0 < w,
        b.0 < w,
    ensures
        before_dot(a, b) <==> a.1 * w + a.0 < b.1 * w + b.0,
        a == b <==> a.1 * w + a.0 == b.1 * w + b.0,
{
    assert((before_dot(a, b) <==> a.1 * w + a.0 < b.1 * w + b.0) && (a == b <==> a.1 * w + a.0
        == b.1 * w + b.0)) by (nonlinear_arith)
        requires
            0 <= a.0 < w,
            0 <= b.0 < w,
            0 <= a.1,
            0 <= b.1,
            before_dot(a, b) == (a.1 < b.1 || (a.1 == b.1 && a.0 < b.0)),
            (a == b) == (a.0 == b.0 && a.1 == b.1),
    ;
}

/// Draws the sheet.
pub fn display_map(map: &Vec<(u32, u32)>) -> (r: Vec<char>)
    requires
        forall|i: int| 0 <= i < map.len() ==> (#[trigger] map[i]).0 < u32::MAX && map[i].1 < u32::MAX,
    ensures
        exists|dims: (u32, u32)|
            dims.0 >= 1 && dims.1 >= 1 && (forall|i: int|
                0 <= i < map.len() ==> (#[trigger] map[i]).0 < dims.0 && map[i].1 < dims.1) && r@
                == #[trigger] picture(map@, dims),
{
    let dims = get_dims(map);
    let ls = arrange(map);
    let mut cur = Cursor::new(dims);
    let ghost w = dims.0 as int;
    let ghost h = dims.1 as int;
    let ghost lit = |k: int| dot_at(map@, w, k);
    let mut i: usize = 0;
    proof {
        assert(cur.out@ =~= render(lit, w, 0, 0));
        lemma_cell(w, h, 0, 0);
    }
    while i < ls.len()
        invariant
            i <= ls.len(),
            cur.wf(),
            cur.dims == dims,
            w == dims.0,
            h == dims.1,
            lit == (|k: int| dot_at(map@, w, k)),
            in_order(ls@),
            forall|p: (u32, u32)| #[trigger] ls@.contains(p) <==> map@.contains(p),
            forall|k: int| 0 <= k < map.len() ==> (#[trigger] map[k]).0 < dims.0 && map[k].1 < dims.1,
            0 <= index_of(cur.pos, dims) <= h * w,
            i < ls.len() ==> index_of(cur.pos, dims) <= ls@[i as int].1 * w + ls@[i as int].0,
            forall|j: int|
                0 <= j < i ==> (#[trigger] ls@[j]).1 * w + ls@[j].0 < index_of(cur.pos, dims),
            cur.out@ == render(lit, w, 0, index_of(cur.pos, dims)),
        decreases ls.len() - i,
    {
        let d_pos = ls[i];
        let ghost start = index_of(cur.pos, dims);
        let ghost here = d_pos.1 * w + d_pos.0;
        let ghost drawn = cur.out@;
        proof {
            assert(ls@.contains(d_pos));
            let m = choose|m: int| 0 <= m < map.len() && map@[m] == d_pos;
            assert(map[m].0 < dims.0 && map[m].1 < dims.1);
            lemma_cell(w, h, d_pos.0 as int, d_pos.1 as int);
        }
        cur.advance_to(Some(d_pos));
        cur.write_dot();
        proof {
            assert forall|k: int| start <= k < here implies !#[trigger] lit(k) by {
                if dot_at(map@, w, k) {
                    let m = choose|m: int|
                        0 <= m < map.len() && (#[trigger] map@[m]).1 * w + map@[m].0 == k;
                    assert(map[m].0 < dims.0);
                    assert(map@.contains(map@[m]));
                    assert(ls@.contains(map@[m]));
                    let j = choose|j: int| 0 <= j < ls.len() && ls@[j] == map@[m];
                    lemma_order_index(ls@[j], d_pos, w);
                    if j < i {
                        assert(ls@[j].1 * w + ls@[j].0 < start);
                    } else if j > i {
                        assert(before_dot(ls@[i as int], ls@[j]));
                        lemma_order_index(d_pos, ls@[j], w);
                    }
                }
            }
            assert(lit(here)) by {
                assert(ls@.contains(d_pos));
                let m = choose|m: int| 0 <= m < map.len() && map@[m] == d_pos;
                assert(map@[m].1 * w + map@[m].0 == here);
            }
            lemma_render_same(lit, |k: int| false, w, start, here);
            lemma_render_same(lit, |k: int| true, w, here, here + 1);
            lemma_render_join(lit, w, 0, start, here);
            lemma_render_join(lit, w, 0, here, here + 1);
            assert(cur.out@ =~= (drawn + render(lit, w, start, here)) + render(
                lit,
                w,
                here,
                here + 1,
            ));
            if i + 1 < ls.len() {
                let next = ls@[i + 1];
                assert(ls@.contains(next));
                let m = choose|m: int| 0 <= m < map.len() && map@[m] == next;
                assert(map[m].0 < dims.0);
                assert(before_dot(ls@[i as int], ls@[i + 1]));
                lemma_order_index(d_pos, next, w);
            }
            assert forall|j: int| 0 <= j < i + 1 implies (#[trigger] ls@[j]).1 * w + ls@[j].0
                < here + 1 by {
                if j < i {
                    assert(ls@[j].1 * w + ls@[j].0 < start);
                }
            }
            assert(here + 1 <= h * w);
        }
        i = i + 1;
    }
    let ghost start = index_of(cur.pos, dims);
    let ghost drawn = cur.out@;
    cur.advance_to(None);
    proof {
        assert forall|k: int| start <= k < h * w implies !#[trigger] lit(k) by {
            if dot_at(map@, w, k) {
                let m = choose|m: int|
                    0 <= m < map.len() && (#[trigger] map@[m]).1 * w + map@[m].0 == k;
                assert(map@.contains(map@[m]));
                assert(ls@.contains(map@[m]));
                let j = choose|j: int| 0 <= j < ls.len() && ls@[j] == map@[m];
                assert(ls@[j].1 * w + ls@[j].0 < start);
            }
        }
        lemma_render_same(lit, |k: int| false, w, start, h * w);
        lemma_render_join(lit, w, 0, start, h * w);
        assert(cur.out@ == picture(map@, dims));
    }
    cur.out
}

/// The dot that a line of the form `x,y` gives.
pub open spec fn dot_of(line: Seq<char>) -> Option<(u32, u32)> {
    match text::split_once_spec(line, ',') {
        Some((a, b)) => match (text::u32_of(a), text::u32_of(text::strip_newline_spec(b))) {
            (Some(x), Some(y)) => Some((x, y)),
            _ => None,
        },
        None => None,
    }
}

/// The fold that a line of the form `fold along x=N` gives: a fold to the
/// left if an `x` stands before the `=`, else a fold up.
pub open spec fn fold_of(line: Seq<char>) -> Option<Fold> {
    match text::split_once_spec(line, '=') {
        Some((a, b)) => match text::u32_of(text::strip_newline_spec(b)) {
            Some(n) => if a.len() > 0 && a.last() == 'x' {
                Some(Fold::Left(n))
            } else {
                Some(Fold::Up(n))
            },
            None => None,
        },
        None => None,
    }
}

/// The index of the first line from `i` on that holds no comma, or the
/// number of lines.
pub open spec fn dots_end(lines: Seq<Seq<char>>, i: int) -> int
    decreases lines.len() - i,
{
    if i < 0 || i >= lines.len() || text::split_once_spec(lines[i], ',') is None {
        i
    } else {
        dots_end(lines, i + 1)
    }
}

/// The dots that the first `k` lines give, each once.
pub open spec fn dots_of(lines: Seq<Seq<char>>, k: int) -> Seq<(u32, u32)>
    decreases k,
{
    if k <= 0 {
        seq![]
    } else {
        let rest = dots_of(lines, k - 1);
        match dot_of(lines[k - 1]) {
            Some(p) => if rest.contains(p) {
                rest
            } else {
                rest.push(p)
            },
            None => rest,
        }
    }
}

/// Reads the dots and the folds: the dots come first, one on each line,
/// up to a line without a comma; the folds follow it. `None` when a dot
/// or a fold is malformed.
pub fn read_data(lines: &Vec<Vec<char>>) -> (r: Option<(Vec<(u32, u32)>, Vec<Fold>)>)
    ensures
        r matches Some(v) ==> {
            let all = text::views(lines@);
            let m = dots_end(all, 0);
            &&& 0 <= m <= lines.len()
            &&& forall|i: int| 0 <= i < m ==> dot_of(#[trigger] all[i]) is Some
            &&& v.0@ == dots_of(all, m)
            &&& v.1.len() == (if m < lines.len() {
                lines.len() - m - 1
            } else {
                0
            })
            &&& forall|i: int| 0 <= i < v.1.len() ==> Some(#[trigger] v.1[i]) == fold_of(all[m + 1 + i])
        },
        r is None ==> {
            let all = text::views(lines@);
            let m = dots_end(all, 0);
            (exists|i: int| 0 <= i < m && dot_of(#[trigger] all[i]) is None) || (exists|i: int|
                m < i < lines.len() && fold_of(#[trigger] all[i]) is None)
        },
{
    let ghost all = text::views(lines@);
    let mut map: Vec<(u32, u32)> = Vec::new();
    let mut folds: Vec<Fold> = Vec::new();
    let mut i: usize = 0;
    loop
        invariant_except_break
            dots_end(all, 0) == dots_end(all, i as int),
        invariant
            i <= lines.len(),
            all == text::views(lines@),
            forall|k: int| 0 <= k < i ==> dot_of(#[trigger] all[k]) is Some,
            map@ == dots_of(all, i as int),
        ensures
            i == dots_end(all, 0),
        decreases lines.len() - i,
    {
        if i >= lines.len() {
            break ;
        }
        assert(all[i as int] == lines@[i as int]@);
        let (a, b) = match text::split_once(&lines[i], ',') {
            Some(v) => v,
            None => {
                break ;
            },
        };
        let b = text::strip_newline(&b);
        let p = match (text::parse_u32(&a), text::parse_u32(&b)) {
            (Some(x), Some(y)) => (x, y),
            _ => {
                proof {
                    lemma_dots_end(all, i + 1);
                    assert(dot_of(all[i as int]) is None);
                }
                return None;
            },
        };
        if !has_dot(&map, p) {
            map.push(p);
        }
        i = i + 1;
    }
    let m = i;
    let first: usize = if m < lines.len() {
        m + 1
    } else {
        m
    };
    let mut j: usize = first;
    while j < lines.len()
        invariant
            m <= lines.len(),
            m == dots_end(all, 0),
            all == text::views(lines@),
            first == m + 1 || (first == m && m == lines.len()),
            first <= j <= lines.len(),
            folds.len() == j - first,
            forall|k: int| 0 <= k < folds.len() ==> Some(#[trigger] folds[k]) == fold_of(all[m + 1 + k]),
        decreases lines.len() - j,
    {
        assert(all[j as int] == lines@[j as int]@);
        let (a, b) = match text::split_once(&lines[j], '=') {
            Some(v) => v,
            None => {
                assert(fold_of(all[j as int]) is None);
                return None;
            },
        };
        let b = text::strip_newline(&b);
        let n = match text::parse_u32(&b) {
            Some(n) => n,
            None => {
                assert(fold_of(all[j as int]) is None);
                return None;
            },
        };
        if a.len() > 0 && a[a.len() - 1] == 'x' {
            folds.push(Fold::Left(n));
        } else {
            folds.push(Fold::Up(n));
        }
        j = j + 1;
    }
    Some((map, folds))
}

pub proof fn lemma_dots_end(lines: Seq<Seq<char>>, i: int)
    requires
        0 <= i <= lines.len(),
    ensures
        i <= dots_end(lines, i) <= lines.len(),
    decreases lines.len() - i,
{
    if i < lines.len() && text::split_once_spec(lines[i], ',') is Some {
        lemma_dots_end(lines, i + 1);
    }
}

} // verus!
