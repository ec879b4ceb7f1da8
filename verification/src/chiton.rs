use crate::text::{digit_of, digit_value, is_ascii_digit, is_digit};
use vstd::prelude::*;

verus! {

/// A grid of `rows` rows and `cols` columns, kept row by row.
pub struct Grid<T> {
    pub rows: usize,
    pub cols: usize,
    pub backer: Vec<T>,
}

pub proof fn lemma_cell(rows: int, cols: int, y: int, x: int)
    requires
        0 <= y < rows,
        0 <= x < cols,
    ensures
        0 <= y * cols + x < rows * cols,
        0 <= cols * y <= cols * (y + 1) <= rows * cols,
        cols * y == y * cols,
        cols * (y + 1) == y * cols + cols,
{
    assert(0 <= y * cols + x < rows * cols && 0 <= cols * y <= cols * (y + 1) <= rows * cols
        && cols * y == y * cols && cols * (y + 1) == y * cols + cols) by (nonlinear_arith)
        requires
            0 <= y < rows,
            0 <= x < cols,
    ;
}

/// Two places of a grid with one index are one place.
pub proof fn lemma_cell_unique(cols: int, y1: int, x1: int, y2: int, x2: int)
    requires
        0 <= x1 < cols,
        0 <= x2 < cols,
        0 <= y1,
        0 <= y2,
        y1 * cols + x1 == y2 * cols + x2,
    ensures
        y1 == y2,
        x1 == x2,
{
    assert(y1 == y2 && x1 == x2) by (nonlinear_arith)
        requires
            0 <= x1 < cols,
            0 <= x2 < cols,
            0 <= y1,
            0 <= y2,
            y1 * cols + x1 == y2 * cols + x2,
    ;
}

/// The places beside `(y, x)` in a grid: above, to the left, below and to
/// the right, as far as they exist.
pub open spec fn adjacent_spec(rows: int, cols: int, y: int, x: int) -> Seq<(usize, usize)> {
    (if y != 0 {
        seq![((y - 1) as usize, x as usize)]
    } else {
        seq![]
    }) + (if x != 0 {
        seq![(y as usize, (x - 1) as usize)]
    } else {
        seq![]
    }) + (if y + 1 < rows {
        seq![((y + 1) as usize, x as usize)]
    } else {
        seq![]
    }) + (if x + 1 < cols {
        seq![(y as usize, (x + 1) as usize)]
    } else {
        seq![]
    })
}

/// Whether `n` lies beside `c`.
pub open spec fn beside(c: (int, int), n: (int, int)) -> bool {
    (n.0 == c.0 && (n.1 == c.1 + 1 || n.1 + 1 == c.1)) || (n.1 == c.1 && (n.0 == c.0 + 1 || n.0
        + 1 == c.0))
}

pub proof fn lemma_adjacent(rows: int, cols: int, y: int, x: int)
    requires
        0 <= y < rows <= usize::MAX,
        0 <= x < cols <= usize::MAX,
    ensures
        forall|i: int|
            0 <= i < adjacent_spec(rows, cols, y, x).len() ==> {
                let n = #[trigger] adjacent_spec(rows, cols, y, x)[i];
                n.0 < rows && n.1 < cols && beside((y, x), (n.0 as int, n.1 as int))
            },
        forall|ny: int, nx: int|
            0 <= ny < rows && 0 <= nx < cols && beside((y, x), (ny, nx)) ==> adjacent_spec(
                rows,
                cols,
                y,
                x,
            ).contains((ny as usize, nx as usize)),
{
    let a = adjacent_spec(rows, cols, y, x);
    let up = if y != 0 {
        seq![((y - 1) as usize, x as usize)]
    } else {
        seq![]
    };
    let left = if x != 0 {
        seq![(y as usize, (x - 1) as usize)]
    } else {
        seq![]
    };
    let down = if y + 1 < rows {
        seq![((y + 1) as usize, x as usize)]
    } else {
        seq![]
    };
    let right = if x + 1 < cols {
        seq![(y as usize, (x + 1) as usize)]
    } else {
        seq![]
    };
    assert(a == up + left + down + right);
    assert forall|ny: int, nx: int|
        0 <= ny < rows && 0 <= nx < cols && beside((y, x), (ny, nx)) implies a.contains(
        (ny as usize, nx as usize),
    ) by {
        if ny == y - 1 {
            assert(a[0] == (ny as usize, nx as usize));
        } else if nx == x - 1 {
            assert(a[up.len() as int] == (ny as usize, nx as usize));
        } else if ny == y + 1 {
            assert(a[(up.len() + left.len()) as int] == (ny as usize, nx as usize));
        } else {
            assert(a[(up.len() + left.len() + down.len()) as int] == (ny as usize, nx as usize));
        }
    }
}

impl<T> Grid<T> {
    /// Whether the grid holds a value for every place.
    pub open spec fn wf(&self) -> bool {
        self.backer.len() == self.rows * self.cols
    }

    /// The value at row `y` and column `x`.
    pub open spec fn at(&self, y: int, x: int) -> T {
        self.backer[y * self.cols + x]
    }

    /// Row `index` of the grid.
    pub fn index(&self, index: usize) -> (r: &[T])
        requires
            self.wf(),
            index < self.rows,
        ensures
            r@ == self.backer@.subrange(self.cols * index, self.cols * (index + 1)),
    {
        assert(0 <= self.cols * index <= self.cols * (index + 1) <= self.rows * self.cols)
            by (nonlinear_arith)
            requires
                0 <= index < self.rows,
                0 <= self.cols,
        ;
        vstd::slice::slice_subrange(
            self.backer.as_slice(),
            self.cols * index,
            self.cols * (index + 1),
        )
    }

    /// A grid of the same shape with `f` applied to every value.
    pub fn copy_map<U>(&self, f: impl Fn(&T) -> U) -> (r: Grid<U>)
        requires
            forall|i: int| 0 <= i < self.backer.len() ==> call_requires(f, (&#[trigger] self.backer[i],)),
        ensures
            r.rows == self.rows,
            r.cols == self.cols,
            r.backer.len() == self.backer.len(),
            forall|i: int|
                0 <= i < self.backer.len() ==> call_ensures(
                    f,
                    (&self.backer[i],),
                    #[trigger] r.backer[i],
                ),
    {
        let mut backer: Vec<U> = Vec::new();
        let mut i: usize = 0;
        while i < self.backer.len()
            invariant
                i <= self.backer.len(),
                backer.len() == i,
                forall|k: int|
                    0 <= k < self.backer.len() ==> call_requires(f, (&#[trigger] self.backer[k],)),
                forall|k: int|
                    0 <= k < i ==> call_ensures(f, (&self.backer[k],), #[trigger] backer[k]),
            decreases self.backer.len() - i,
        {
            let v = f(&self.backer[i]);
            backer.push(v);
            i = i + 1;
        }
        Grid { rows: self.rows, cols: self.cols, backer }
    }

    /// The places beside `(y, x)`: above, to the left, below and to the
    /// right, as far as they exist.
    pub fn find_adjacent(&self, y: usize, x: usize) -> (r: Vec<(usize, usize)>)
        requires
            y < usize::MAX,
            x < usize::MAX,
        ensures
            r@ == adjacent_spec(self.rows as int, self.cols as int, y as int, x as int),
    {
        let mut out: Vec<(usize, usize)> = Vec::new();
        if y != 0 {
            out.push((y - 1, x));
        }
        if x != 0 {
            out.push((y, x - 1));
        }
        if (y + 1) < self.rows {
            out.push((y + 1, x));
        }
        if (x + 1) < self.cols {
            out.push((y, x + 1));
        }
        assert(out@ =~= adjacent_spec(self.rows as int, self.cols as int, y as int, x as int));
        out
    }
}

impl<T: Copy> Grid<T> {
    /// The value at row `y` and column `x`.
    pub fn get(&self, y: usize, x: usize) -> (r: T)
        requires
            self.wf(),
            y < self.rows,
            x < self.cols,
        ensures
            r == self.at(y as int, x as int),
    {
        proof {
            lemma_cell(self.rows as int, self.cols as int, y as int, x as int);
        }
        self.backer[y * self.cols + x]
    }

    /// The values at the places beside `(y, x)`.
    pub fn find_adjacent_values(&self, y: usize, x: usize) -> (r: Vec<T>)
        requires
            self.wf(),
            y < self.rows,
            x < self.cols,
        ensures
            r.len() == adjacent_spec(self.rows as int, self.cols as int, y as int, x as int).len(),
            forall|i: int|
                0 <= i < r.len() ==> #[trigger] r[i] == self.at(
                    adjacent_spec(self.rows as int, self.cols as int, y as int, x as int)[i].0 as int,
                    adjacent_spec(self.rows as int, self.cols as int, y as int, x as int)[i].1 as int,
                ),
    {
        let around = self.find_adjacent(y, x);
        proof {
            lemma_adjacent(self.rows as int, self.cols as int, y as int, x as int);
        }
        let mut out: Vec<T> = Vec::new();
        let mut i: usize = 0;
        while i < around.len()
            invariant
                i <= around.len(),
                self.wf(),
                around@ == adjacent_spec(self.rows as int, self.cols as int, y as int, x as int),
                forall|k: int|
                    0 <= k < around.len() ==> (#[trigger] around@[k]).0 < self.rows && around@[k].1
                        < self.cols,
                out.len() == i,
                forall|k: int|
                    0 <= k < i ==> #[trigger] out[k] == self.at(
                        around@[k].0 as int,
                        around@[k].1 as int,
                    ),
            decreases around.len() - i,
        {
            let n = around[i];
            assert(around@[i as int].0 < self.rows);
            out.push(self.get(n.0, n.1));
            i = i + 1;
        }
        out
    }

    /// Sets the value at row `y` and column `x`.
    pub fn put(&mut self, y: usize, x: usize, v: T)
        requires
            old(self).wf(),
            y < old(self).rows,
            x < old(self).cols,
        ensures
            final(self).wf(),
            final(self).rows == old(self).rows,
            final(self).cols == old(self).cols,
            final(self).backer@ == old(self).backer@.update(y * old(self).cols + x, v),
    {
        proof {
            lemma_cell(self.rows as int, self.cols as int, y as int, x as int);
        }
        let i = y * self.cols + x;
        self.backer.set(i, v);
    }
}

/// The values of a list of rows, one row after another.
pub open spec fn flatten<T>(rows: Seq<Vec<T>>) -> Seq<T>
    decreases rows.len(),
{
    if rows.len() == 0 {
        seq![]
    } else {
        flatten(rows.drop_last()) + rows.last()@
    }
}

impl<T: Copy> Grid<T> {
    /// The grid of the given rows; its width is the length of the first
    /// row.
    pub fn from_iterator(it: &Vec<Vec<T>>) -> (r: Grid<T>)
        ensures
            r.rows == it.len(),
            r.cols == (if it.len() > 0 {
                it[0].len()
            } else {
                0
            }),
            r.backer@ == flatten(it@),
    {
        let mut rows: usize = 0;
        let mut cols: usize = 0;
        let mut back: Vec<T> = Vec::new();
        let mut i: usize = 0;
        while i < it.len()
            invariant
                i <= it.len(),
                rows == i,
                cols == (if i > 0 {
                    it[0].len()
                } else {
                    0
                }),
                back@ == flatten(it@.subrange(0, i as int)),
            decreases it.len() - i,
        {
            proof {
                assert(it@.subrange(0, i + 1).drop_last() =~= it@.subrange(0, i as int));
                assert(it@.subrange(0, i + 1).last() == it@[i as int]);
                assert(it@.subrange(0, 0) =~= Seq::<Vec<T>>::empty());
            }
            let row = &it[i];
            let ghost before = back@;
            let mut k: usize = 0;
            while k < row.len()
                invariant
                    k <= row.len(),
                    back@ == before + row@.subrange(0, k as int),
                decreases row.len() - k,
            {
                back.push(row[k]);
                k = k + 1;
                assert(back@ =~= before + row@.subrange(0, k as int));
            }
            assert(row@.subrange(0, k as int) =~= row@);
            if rows == 0 {
                cols = back.len();
            }
            rows += 1;
            i = i + 1;
        }
        assert(it@.subrange(0, i as int) =~= it@);
        Grid { rows, cols, backer: back }
    }
}

impl<T> Grid<T> {
    /// The grid of the given size whose value at `(y, x)` is `f(y, x)`.
    pub fn with_size(rows: usize, cols: usize, f: impl Fn(usize, usize) -> T) -> (r: Grid<T>)
        requires
            rows * cols <= usize::MAX,
            forall|y: usize, x: usize| y < rows && x < cols ==> call_requires(f, (y, x)),
        ensures
            r.wf(),
            r.rows == rows,
            r.cols == cols,
            forall|y: usize, x: usize|
                y < rows && x < cols ==> call_ensures(f, (y, x), #[trigger] r.at(y as int, x as int)),
    {
        let mut backer: Vec<T> = Vec::new();
        let mut y: usize = 0;
        while y < rows
            invariant
                y <= rows,
                rows * cols <= usize::MAX,
                backer.len() == y * cols,
                forall|a: usize, b: usize| a < rows && b < cols ==> call_requires(f, (a, b)),
                forall|a: usize, b: usize|
                    a < y && b < cols ==> call_ensures(f, (a, b), #[trigger] backer[a * cols + b]),
            decreases rows - y,
        {
            let mut x: usize = 0;
            while x < cols
                invariant
                    x <= cols,
                    y < rows,
                    rows * cols <= usize::MAX,
                    backer.len() == y * cols + x,
                    forall|a: usize, b: usize| a < rows && b < cols ==> call_requires(f, (a, b)),
                    forall|a: usize, b: usize|
                        (a < y && b < cols) || (a == y && b < x) ==> call_ensures(
                            f,
                            (a, b),
                            #[trigger] backer[a * cols + b],
                        ),
                decreases cols - x,
            {
                let v = f(y, x);
                let ghost before = backer@;
                proof {
                    lemma_cell(rows as int, cols as int, y as int, x as int);
                }
                backer.push(v);
                proof {
                    assert forall|a: usize, b: usize|
                        (a < y && b < cols) || (a == y && b < x + 1) implies call_ensures(
                        f,
                        (a, b),
                        #[trigger] backer[a * cols + b],
                    ) by {
                        lemma_cell(rows as int, cols as int, a as int, b as int);
                        if a == y && b == x {
                        } else {
                            assert(a * cols + b < y * cols + x) by (nonlinear_arith)
                                requires
                                    (a < y && b < cols) || (a == y && b < x),
                                    0 <= x,
                            ;
                            assert(backer[a * cols + b] == before[a * cols + b]);
                        }
                    }
                }
                x = x + 1;
            }
            proof {
                assert(y * cols + cols == (y + 1) * cols) by (nonlinear_arith);
            }
            y = y + 1;
        }
        Grid { rows, cols, backer }
    }
}

/// The cost of going on from a place whose own cost to the goal is `a`
/// over a place of risk `b`; it stops at the greatest number.
pub open spec fn step_cost(a: usize, b: u8) -> usize {
    if a + b > usize::MAX {
        usize::MAX
    } else {
        (a + b) as usize
    }
}

/// The cost of the step over the `i`-th of the places `adj`.
pub open spec fn via(scores: Seq<usize>, risk: Seq<u8>, cols: int, adj: Seq<(usize, usize)>, i: int)
    -> usize {
    step_cost(scores[adj[i].0 * cols + adj[i].1], risk[adj[i].0 * cols + adj[i].1])
}

/// The least cost of a step over one of the first `k` of the places
/// `adj`.
pub open spec fn least_via(
    scores: Seq<usize>,
    risk: Seq<u8>,
    cols: int,
    adj: Seq<(usize, usize)>,
    k: int,
) -> usize
    decreases k,
{
    if k <= 1 {
        via(scores, risk, cols, adj, 0)
    } else {
        let rest = least_via(scores, risk, cols, adj, k - 1);
        let last = via(scores, risk, cols, adj, k - 1);
        if last < rest {
            last
        } else {
            rest
        }
    }
}

/// What the cost of the place `(y, x)` has to be, given the costs of the
/// places beside it: nothing at the goal in the last row and column, else
/// the least cost of a step over a place beside it.
pub open spec fn relaxed(scores: Seq<usize>, risk: Seq<u8>, rows: int, cols: int, y: int, x: int)
    -> usize {
    if y + 1 == rows && x + 1 == cols {
        0
    } else {
        let adj = adjacent_spec(rows, cols, y, x);
        least_via(scores, risk, cols, adj, adj.len() as int)
    }
}

/// Whether every place has the cost that the places beside it ask for.
pub open spec fn settled(scores: Seq<usize>, risk: Seq<u8>, rows: int, cols: int) -> bool {
    scores.len() == rows * cols && forall|y: int, x: int|
        0 <= y < rows && 0 <= x < cols ==> #[trigger] scores[y * cols + x] == relaxed(
            scores,
            risk,
            rows,
            cols,
            y,
            x,
        )
}

/// The sum of the costs.
pub open spec fn total(scores: Seq<usize>) -> int
    decreases scores.len(),
{
    if scores.len() == 0 {
        0
    } else {
        total(scores.drop_last()) + scores.last()
    }
}

pub proof fn lemma_total_update(scores: Seq<usize>, i: int, v: usize)
    requires
        0 <= i < scores.len(),
    ensures
        total(scores.update(i, v)) == total(scores) - scores[i] + v,
        total(scores) >= 0,
    decreases scores.len(),
{
    let next = scores.update(i, v);
    if i == scores.len() - 1 {
        assert(next.drop_last() =~= scores.drop_last());
        lemma_total_nonneg(scores.drop_last());
    } else {
        assert(next.drop_last() =~= scores.drop_last().update(i, v));
        lemma_total_update(scores.drop_last(), i, v);
    }
}

pub proof fn lemma_total_nonneg(scores: Seq<usize>)
    ensures
        total(scores) >= 0,
    decreases scores.len(),
{
    if scores.len() > 0 {
        lemma_total_nonneg(scores.drop_last());
    }
}

/// Lower costs beside a place ask for no higher cost of the place.
pub proof fn lemma_least_via_monotone(
    a: Seq<usize>,
    b: Seq<usize>,
    risk: Seq<u8>,
    cols: int,
    adj: Seq<(usize, usize)>,
    k: int,
)
    requires
        a.len() == b.len(),
        forall|i: int| 0 <= i < a.len() ==> a[i] <= b[i],
        0 <= k <= adj.len(),
        forall|i: int|
            0 <= i < adj.len() ==> 0 <= (#[trigger] adj[i]).0 * cols + adj[i].1 < a.len(),
        adj.len() > 0,
    ensures
        least_via(a, risk, cols, adj, k) <= least_via(b, risk, cols, adj, k),
    decreases k,
{
    assert(0 <= adj[0].0 * cols + adj[0].1 < a.len());
    if k > 1 {
        lemma_least_via_monotone(a, b, risk, cols, adj, k - 1);
        assert(0 <= adj[k - 1].0 * cols + adj[k - 1].1 < a.len());
    }
}

/// The cost that a place asks for depends only on the costs of the
/// places beside it.
pub proof fn lemma_least_via_same(
    a: Seq<usize>,
    b: Seq<usize>,
    risk: Seq<u8>,
    cols: int,
    adj: Seq<(usize, usize)>,
    k: int,
)
    requires
        0 <= k <= adj.len(),
        adj.len() > 0,
        forall|i: int|
            0 <= i < adj.len() ==> a[(#[trigger] adj[i]).0 * cols + adj[i].1] == b[adj[i].0 * cols
                + adj[i].1],
    ensures
        least_via(a, risk, cols, adj, k) == least_via(b, risk, cols, adj, k),
    decreases k,
{
    assert(a[adj[0].0 * cols + adj[0].1] == b[adj[0].0 * cols + adj[0].1]);
    if k > 1 {
        lemma_least_via_same(a, b, risk, cols, adj, k - 1);
        assert(a[adj[k - 1].0 * cols + adj[k - 1].1] == b[adj[k - 1].0 * cols + adj[k - 1].1]);
    }
}

pub proof fn lemma_adjacent_cells(rows: int, cols: int, y: int, x: int)
    requires
        0 <= y < rows <= usize::MAX,
        0 <= x < cols <= usize::MAX,
    ensures
        forall|i: int|
            0 <= i < adjacent_spec(rows, cols, y, x).len() ==> 0 <= (#[trigger] adjacent_spec(
                rows,
                cols,
                y,
                x,
            )[i]).0 * cols + adjacent_spec(rows, cols, y, x)[i].1 < rows * cols,
        !(y + 1 == rows && x + 1 == cols) ==> adjacent_spec(rows, cols, y, x).len() > 0,
{
    lemma_adjacent(rows, cols, y, x);
    let adj = adjacent_spec(rows, cols, y, x);
    assert forall|i: int| 0 <= i < adj.len() implies 0 <= (#[trigger] adj[i]).0 * cols + adj[i].1
        < rows * cols by {
        lemma_cell(rows, cols, adj[i].0 as int, adj[i].1 as int);
    }
}

/// The cost of the place `(y, x)`.
pub open spec fn cell(scores: Seq<usize>, cols: int, y: int, x: int) -> usize {
    scores[y * cols + x]
}

/// Whether no place costs less than the places beside it ask for.
#[verifier::opaque]
pub open spec fn cautious(scores: Seq<usize>, risk: Seq<u8>, rows: int, cols: int) -> bool {
    forall|y: int, x: int|
        0 <= y < rows && 0 <= x < cols ==> relaxed(scores, risk, rows, cols, y, x) <= #[trigger] cell(
            scores,
            cols,
            y,
            x,
        )
}

/// Whether every place that does not have the cost that the places beside
/// it ask for waits in the queue.
#[verifier::opaque]
pub open spec fn queued(
    scores: Seq<usize>,
    risk: Seq<u8>,
    rows: int,
    cols: int,
    queue: Seq<(usize, usize)>,
) -> bool {
    forall|y: int, x: int|
        0 <= y < rows && 0 <= x < cols ==> #[trigger] cell(scores, cols, y, x) == relaxed(
            scores,
            risk,
            rows,
            cols,
            y,
            x,
        ) || queue.contains((y as usize, x as usize))
}

/// At the start every place costs the greatest number, and only the goal
/// asks for less.
pub proof fn lemma_start(scores: Seq<usize>, risk: Seq<u8>, rows: int, cols: int, queue: Seq<
    (usize, usize),
>)
    requires
        1 <= rows <= usize::MAX,
        1 <= cols <= usize::MAX,
        scores.len() == rows * cols,
        forall|i: int| 0 <= i < scores.len() ==> scores[i] == usize::MAX,
        queue == seq![((rows - 1) as usize, (cols - 1) as usize)],
    ensures
        cautious(scores, risk, rows, cols),
        queued(scores, risk, rows, cols, queue),
{
    reveal(cautious);
    reveal(queued);
    assert forall|y: int, x: int| 0 <= y < rows && 0 <= x < cols implies relaxed(
        scores,
        risk,
        rows,
        cols,
        y,
        x,
    ) <= #[trigger] cell(scores, cols, y, x) && (cell(scores, cols, y, x) == relaxed(
        scores,
        risk,
        rows,
        cols,
        y,
        x,
    ) || queue.contains((y as usize, x as usize))) by {
        lemma_cell(rows, cols, y, x);
        if y + 1 == rows && x + 1 == cols {
            assert(queue[0] == (y as usize, x as usize));
        } else {
            lemma_adjacent_cells(rows, cols, y, x);
            lemma_all_max(
                scores,
                risk,
                cols,
                adjacent_spec(rows, cols, y, x),
                adjacent_spec(rows, cols, y, x).len() as int,
            );
        }
    }
}

/// A place that is taken from the queue and has the cost asked for leaves
/// the rest of the queue in charge.
pub proof fn lemma_skip(
    scores: Seq<usize>,
    risk: Seq<u8>,
    rows: int,
    cols: int,
    before: Seq<(usize, usize)>,
)
    requires
        rows <= usize::MAX,
        cols <= usize::MAX,
        before.len() > 0,
        queued(scores, risk, rows, cols, before),
        before.last().0 < rows,
        before.last().1 < cols,
        cell(scores, cols, before.last().0 as int, before.last().1 as int) == relaxed(
            scores,
            risk,
            rows,
            cols,
            before.last().0 as int,
            before.last().1 as int,
        ),
    ensures
        queued(scores, risk, rows, cols, before.drop_last()),
{
    reveal(queued);
    let after = before.drop_last();
    assert forall|y: int, x: int| 0 <= y < rows && 0 <= x < cols implies #[trigger] cell(
        scores,
        cols,
        y,
        x,
    ) == relaxed(scores, risk, rows, cols, y, x) || after.contains((y as usize, x as usize)) by {
        if cell(scores, cols, y, x) != relaxed(scores, risk, rows, cols, y, x) {
            assert(before.contains((y as usize, x as usize)));
            let j = choose|j: int| 0 <= j < before.len() && before[j] == (y as usize, x as usize);
            assert(j != before.len() - 1);
            assert(after[j] == (y as usize, x as usize));
        }
    }
}

/// Giving a place the lower cost that the places beside it ask for keeps
/// all places cautious; the places beside it may then ask for less, so
/// they have to wait in the queue.
pub proof fn lemma_lower(
    scores: Seq<usize>,
    risk: Seq<u8>,
    rows: int,
    cols: int,
    y: int,
    x: int,
    before: Seq<(usize, usize)>,
    after: Seq<(usize, usize)>,
)
    requires
        1 <= rows <= usize::MAX,
        1 <= cols <= usize::MAX,
        scores.len() == rows * cols,
        0 <= y < rows,
        0 <= x < cols,
        cautious(scores, risk, rows, cols),
        queued(scores, risk, rows, cols, before.push((y as usize, x as usize))),
        forall|i: int| 0 <= i < before.len() ==> after.contains(#[trigger] before[i]),
        forall|i: int|
            0 <= i < adjacent_spec(rows, cols, y, x).len() ==> after.contains(
                #[trigger] adjacent_spec(rows, cols, y, x)[i],
            ),
    ensures
        ({
            let new = relaxed(scores, risk, rows, cols, y, x);
            let next = scores.update(y * cols + x, new);
            &&& cautious(next, risk, rows, cols)
            &&& queued(next, risk, rows, cols, after)
            &&& total(next) == total(scores) - cell(scores, cols, y, x) + new
            &&& total(next) >= 0
            &&& new <= cell(scores, cols, y, x)
        }),
{
    reveal(cautious);
    reveal(queued);
    let new = relaxed(scores, risk, rows, cols, y, x);
    let i0 = y * cols + x;
    let next = scores.update(i0, new);
    let full = before.push((y as usize, x as usize));
    lemma_cell(rows, cols, y, x);
    lemma_total_update(scores, i0, new);
    lemma_total_nonneg(next);
    assert(new <= cell(scores, cols, y, x));
    assert forall|i: int| 0 <= i < next.len() implies next[i] <= scores[i] by {}
    assert forall|cy: int, cx: int| 0 <= cy < rows && 0 <= cx < cols implies relaxed(
        next,
        risk,
        rows,
        cols,
        cy,
        cx,
    ) <= #[trigger] cell(next, cols, cy, cx) && (cell(next, cols, cy, cx) == relaxed(
        next,
        risk,
        rows,
        cols,
        cy,
        cx,
    ) || after.contains((cy as usize, cx as usize))) by {
        lemma_cell(rows, cols, cy, cx);
        lemma_adjacent_cells(rows, cols, cy, cx);
        lemma_adjacent(rows, cols, cy, cx);
        lemma_adjacent(rows, cols, y, x);
        let adj = adjacent_spec(rows, cols, cy, cx);
        assert(relaxed(scores, risk, rows, cols, cy, cx) <= cell(scores, cols, cy, cx));
        let at_goal = cy + 1 == rows && cx + 1 == cols;
        if !at_goal {
            lemma_least_via_monotone(next, scores, risk, cols, adj, adj.len() as int);
        }
        let touched = exists|i: int|
            0 <= i < adj.len() && (#[trigger] adj[i]).0 * cols + adj[i].1 == i0;
        if !touched && !at_goal {
            assert forall|i: int| 0 <= i < adj.len() implies next[(#[trigger] adj[i]).0 * cols
                + adj[i].1] == scores[adj[i].0 * cols + adj[i].1] by {}
            lemma_least_via_same(next, scores, risk, cols, adj, adj.len() as int);
        }
        if cy == y && cx == x {
            if touched {
                let i = choose|i: int|
                    0 <= i < adj.len() && (#[trigger] adj[i]).0 * cols + adj[i].1 == i0;
                lemma_cell_unique(cols, adj[i].0 as int, adj[i].1 as int, y, x);
            }
        } else {
            if cy * cols + cx == i0 {
                lemma_cell_unique(cols, cy, cx, y, x);
            }
            if touched {
                let i = choose|i: int|
                    0 <= i < adj.len() && (#[trigger] adj[i]).0 * cols + adj[i].1 == i0;
                lemma_cell_unique(cols, adj[i].0 as int, adj[i].1 as int, y, x);
                assert(beside((cy, cx), (y, x)));
                assert(beside((y, x), (cy, cx)));
                let around = adjacent_spec(rows, cols, y, x);
                assert(around.contains((cy as usize, cx as usize)));
                let j = choose|j: int|
                    0 <= j < around.len() && around[j] == (cy as usize, cx as usize);
                assert(after.contains(around[j]));
            } else if cell(scores, cols, cy, cx) != relaxed(scores, risk, rows, cols, cy, cx) {
                assert(full.contains((cy as usize, cx as usize)));
                let j = choose|j: int| 0 <= j < full.len() && full[j] == (cy as usize, cx as usize);
                assert(j < before.len());
                assert(before[j] == (cy as usize, cx as usize));
                assert(after.contains(before[j]));
            }
        }
    }
}

/// Whether `way` is a way over the grid from `(y, x)` to the last place:
/// it begins at `(y, x)`, ends at the last place of the last row, and
/// every place of it lies on the grid beside the one before it.
pub open spec fn leads(way: Seq<(int, int)>, rows: int, cols: int, y: int, x: int) -> bool {
    &&& way.len() >= 1
    &&& way[0] == (y, x)
    &&& way.last() == (rows - 1, cols - 1)
    &&& forall|i: int|
        0 <= i < way.len() ==> 0 <= (#[trigger] way[i]).0 < rows && 0 <= way[i].1 < cols
    &&& forall|i: int| 0 <= i < way.len() - 1 ==> beside(#[trigger] way[i], way[i + 1])
}

/// The risk of a way: the risks of the places that it enters, which are
/// all but the first.
pub open spec fn way_risk(way: Seq<(int, int)>, risk: Seq<u8>, cols: int) -> int
    decreases way.len(),
{
    if way.len() <= 1 {
        0
    } else {
        risk[way[1].0 * cols + way[1].1] + way_risk(way.subrange(1, way.len() as int), risk, cols)
    }
}

/// Whether some way from `(y, x)` to the last place has the risk `cost`.
pub open spec fn reachable_at(risk: Seq<u8>, rows: int, cols: int, y: int, x: int, cost: int)
    -> bool {
    exists|way: Seq<(int, int)>|
        leads(way, rows, cols, y, x) && #[trigger] way_risk(way, risk, cols) == cost
}

/// Whether every cost below the greatest number is the risk of a way.
#[verifier::opaque]
pub open spec fn grounded(scores: Seq<usize>, risk: Seq<u8>, rows: int, cols: int) -> bool {
    forall|y: int, x: int|
        0 <= y < rows && 0 <= x < cols ==> #[trigger] cell(scores, cols, y, x) == usize::MAX
            || reachable_at(risk, rows, cols, y, x, cell(scores, cols, y, x) as int)
}

pub proof fn lemma_way_risk_nonneg(way: Seq<(int, int)>, risk: Seq<u8>, cols: int)
    ensures
        0 <= way_risk(way, risk, cols),
    decreases way.len(),
{
    if way.len() > 1 {
        lemma_way_risk_nonneg(way.subrange(1, way.len() as int), risk, cols);
    }
}

/// The least cost of a step is no more than the cost of any of the steps.
pub proof fn lemma_least_via_le(
    scores: Seq<usize>,
    risk: Seq<u8>,
    cols: int,
    adj: Seq<(usize, usize)>,
    k: int,
    i: int,
)
    requires
        0 <= i < k <= adj.len(),
    ensures
        least_via(scores, risk, cols, adj, k) <= via(scores, risk, cols, adj, i),
    decreases k,
{
    if k > 1 && i < k - 1 {
        lemma_least_via_le(scores, risk, cols, adj, k - 1, i);
    }
}

/// The least cost of a step is the cost of one of the steps.
pub proof fn lemma_least_via_attained(
    scores: Seq<usize>,
    risk: Seq<u8>,
    cols: int,
    adj: Seq<(usize, usize)>,
    k: int,
) -> (i: int)
    requires
        1 <= k <= adj.len(),
    ensures
        0 <= i < k,
        least_via(scores, risk, cols, adj, k) == via(scores, risk, cols, adj, i),
    decreases k,
{
    if k <= 1 {
        0
    } else if via(scores, risk, cols, adj, k - 1) < least_via(scores, risk, cols, adj, k - 1) {
        k - 1
    } else {
        lemma_least_via_attained(scores, risk, cols, adj, k - 1)
    }
}

/// Where every place has the cost that the places beside it ask for, no
/// way from a place to the last place has a risk below the cost of the
/// place.
pub proof fn lemma_no_cheaper_way(
    scores: Seq<usize>,
    risk: Seq<u8>,
    rows: int,
    cols: int,
    way: Seq<(int, int)>,
    y: int,
    x: int,
)
    requires
        1 <= rows <= usize::MAX,
        1 <= cols <= usize::MAX,
        settled(scores, risk, rows, cols),
        leads(way, rows, cols, y, x),
    ensures
        scores[y * cols + x] <= way_risk(way, risk, cols),
    decreases way.len(),
{
    assert(way[0] == (y, x));
    assert(0 <= way[0].0 < rows && 0 <= way[0].1 < cols);
    assert(scores[y * cols + x] == relaxed(scores, risk, rows, cols, y, x));
    lemma_way_risk_nonneg(way, risk, cols);
    if way.len() > 1 && !(y + 1 == rows && x + 1 == cols) {
        let n = way[1];
        let rest = way.subrange(1, way.len() as int);
        assert(0 <= way[1].0 < rows && 0 <= way[1].1 < cols);
        assert(beside(way[0], way[0int + 1]));
        assert forall|i: int| 0 <= i < rest.len() implies 0 <= (#[trigger] rest[i]).0 < rows && 0
            <= rest[i].1 < cols by {
            assert(rest[i] == way[i + 1]);
        }
        assert forall|i: int| 0 <= i < rest.len() - 1 implies beside(
            #[trigger] rest[i],
            rest[i + 1],
        ) by {
            assert(rest[i] == way[i + 1]);
            assert(beside(way[i + 1], way[i + 1 + 1]));
        }
        assert(leads(rest, rows, cols, n.0, n.1));
        lemma_no_cheaper_way(scores, risk, rows, cols, rest, n.0, n.1);
        lemma_adjacent(rows, cols, y, x);
        let adj = adjacent_spec(rows, cols, y, x);
        assert(adj.contains((n.0 as usize, n.1 as usize)));
        let i = choose|i: int| 0 <= i < adj.len() && adj[i] == (n.0 as usize, n.1 as usize);
        lemma_least_via_le(scores, risk, cols, adj, adj.len() as int, i);
        assert(via(scores, risk, cols, adj, i) <= scores[n.0 * cols + n.1] + risk[n.0 * cols
            + n.1]);
    }
}

/// At the start no place has a cost below the greatest number.
pub proof fn lemma_grounded_start(scores: Seq<usize>, risk: Seq<u8>, rows: int, cols: int)
    requires
        1 <= rows,
        1 <= cols,
        scores.len() == rows * cols,
        forall|i: int| 0 <= i < scores.len() ==> scores[i] == usize::MAX,
    ensures
        grounded(scores, risk, rows, cols),
{
    reveal(grounded);
    assert forall|y: int, x: int| 0 <= y < rows && 0 <= x < cols implies #[trigger] cell(
        scores,
        cols,
        y,
        x,
    ) == usize::MAX by {
        lemma_cell(rows, cols, y, x);
    }
}

/// The cost that the places beside a place ask for is the risk of a way:
/// the step over the cheapest of them, then its way.
pub proof fn lemma_grounded_lower(
    scores: Seq<usize>,
    risk: Seq<u8>,
    rows: int,
    cols: int,
    y: int,
    x: int,
)
    requires
        1 <= rows <= usize::MAX,
        1 <= cols <= usize::MAX,
        scores.len() == rows * cols,
        0 <= y < rows,
        0 <= x < cols,
        grounded(scores, risk, rows, cols),
    ensures
        grounded(
            scores.update(y * cols + x, relaxed(scores, risk, rows, cols, y, x)),
            risk,
            rows,
            cols,
        ),
{
    reveal(grounded);
    let new = relaxed(scores, risk, rows, cols, y, x);
    let next = scores.update(y * cols + x, new);
    lemma_cell(rows, cols, y, x);
    assert forall|cy: int, cx: int| 0 <= cy < rows && 0 <= cx < cols implies #[trigger] cell(
        next,
        cols,
        cy,
        cx,
    ) == usize::MAX || reachable_at(risk, rows, cols, cy, cx, cell(next, cols, cy, cx) as int) by {
        lemma_cell(rows, cols, cy, cx);
        if cy * cols + cx == y * cols + x {
            lemma_cell_unique(cols, cy, cx, y, x);
            if y + 1 == rows && x + 1 == cols {
                let way = seq![(y, x)];
                assert(leads(way, rows, cols, y, x));
                assert(way_risk(way, risk, cols) == 0);
            } else if new != usize::MAX {
                lemma_adjacent(rows, cols, y, x);
                lemma_adjacent_cells(rows, cols, y, x);
                let adj = adjacent_spec(rows, cols, y, x);
                let i = lemma_least_via_attained(scores, risk, cols, adj, adj.len() as int);
                let n = (adj[i].0 as int, adj[i].1 as int);
                assert(beside((y, x), n));
                assert(0 <= adj[i].0 * cols + adj[i].1 < rows * cols);
                let at = n.0 * cols + n.1;
                assert(new == step_cost(scores[at], risk[at]));
                assert(scores[at] + risk[at] == new);
                assert(cell(scores, cols, n.0, n.1) != usize::MAX);
                assert(reachable_at(risk, rows, cols, n.0, n.1, cell(scores, cols, n.0, n.1) as int));
                let rest = choose|w: Seq<(int, int)>|
                    leads(w, rows, cols, n.0, n.1) && #[trigger] way_risk(w, risk, cols) == cell(
                        scores,
                        cols,
                        n.0,
                        n.1,
                    ) as int;
                let way = seq![(y, x)] + rest;
                assert(way.subrange(1, way.len() as int) =~= rest);
                assert(way[1] == rest[0]);
                assert forall|k: int| 0 <= k < way.len() implies 0 <= (#[trigger] way[k]).0 < rows
                    && 0 <= way[k].1 < cols by {
                    if k > 0 {
                        assert(way[k] == rest[k - 1]);
                    }
                }
                assert forall|k: int| 0 <= k < way.len() - 1 implies beside(
                    #[trigger] way[k],
                    way[k + 1],
                ) by {
                    if k > 0 {
                        assert(way[k] == rest[k - 1]);
                        assert(way[k + 1] == rest[k - 1 + 1]);
                        assert(beside(rest[k - 1], rest[k - 1 + 1]));
                    }
                }
                assert(way.last() == rest.last());
                assert(leads(way, rows, cols, y, x));
                assert(way_risk(way, risk, cols) == new);
            }
        } else {
            assert(cell(next, cols, cy, cx) == cell(scores, cols, cy, cx));
        }
    }
}

/// When nothing waits, every place has the cost asked for.
pub proof fn lemma_done(scores: Seq<usize>, risk: Seq<u8>, rows: int, cols: int)
    requires
        scores.len() == rows * cols,
        queued(scores, risk, rows, cols, Seq::<(usize, usize)>::empty()),
    ensures
        settled(scores, risk, rows, cols),
{
    reveal(queued);
    assert forall|y: int, x: int| 0 <= y < rows && 0 <= x < cols implies #[trigger] scores[y * cols
        + x] == relaxed(scores, risk, rows, cols, y, x) by {
        assert(cell(scores, cols, y, x) == relaxed(scores, risk, rows, cols, y, x)
            || Seq::<(usize, usize)>::empty().contains((y as usize, x as usize)));
    }
}

impl Grid<u8> {
    /// The least cost of a step from `(y, x)` over a place beside it,
    /// `None` where there is no place beside it.
    fn least_step(&self, score_grid: &Grid<usize>, y: usize, x: usize) -> (best: usize)
        requires
            self.wf(),
            score_grid.wf(),
            score_grid.rows == self.rows,
            score_grid.cols == self.cols,
            y < self.rows,
            x < self.cols,
            !(y + 1 == self.rows && x + 1 == self.cols),
        ensures
            best == relaxed(
                score_grid.backer@,
                self.backer@,
                self.rows as int,
                self.cols as int,
                y as int,
                x as int,
            ),
    {
        let around = score_grid.find_adjacent(y, x);
        proof {
            lemma_adjacent_cells(self.rows as int, self.cols as int, y as int, x as int);
            lemma_adjacent(self.rows as int, self.cols as int, y as int, x as int);
        }
        let mut best: usize = usize::MAX;
        let mut k: usize = 0;
        while k < around.len()
            invariant
                k <= around.len(),
                around.len() > 0,
                self.wf(),
                score_grid.wf(),
                score_grid.rows == self.rows,
                score_grid.cols == self.cols,
                around@ == adjacent_spec(self.rows as int, self.cols as int, y as int, x as int),
                forall|i: int|
                    0 <= i < around.len() ==> (#[trigger] around@[i]).0 < self.rows && around@[i].1
                        < self.cols,
                k > 0 ==> best == least_via(
                    score_grid.backer@,
                    self.backer@,
                    self.cols as int,
                    around@,
                    k as int,
                ),
            decreases around.len() - k,
        {
            let (y2, x2) = around[k];
            assert(around@[k as int].0 < self.rows);
            let cost = match score_grid.get(y2, x2).checked_add(self.get(y2, x2) as usize) {
                Some(v) => v,
                None => usize::MAX,
            };
            if k == 0 || cost < best {
                best = cost;
            }
            k = k + 1;
        }
        best
    }

    /// The least total risk of a way from the first place to the last.
    /// Risks that leave the range of `usize` count as the greatest
    /// number.
    pub fn cheapest_path(&self) -> (r: usize)
        requires
            self.wf(),
            self.rows >= 1,
            self.cols >= 1,
        ensures
            forall|way: Seq<(int, int)>|
                leads(way, self.rows as int, self.cols as int, 0, 0) ==> r <= #[trigger] way_risk(
                    way,
                    self.backer@,
                    self.cols as int,
                ),
            r == usize::MAX || reachable_at(
                self.backer@,
                self.rows as int,
                self.cols as int,
                0,
                0,
                r as int,
            ),
    {
        let rows = self.rows;
        let cols = self.cols;
        let ghost risk = self.backer@;
        let mut score_grid: Grid<usize> = self.copy_map(|_v: &u8| -> (r: usize)
            ensures
                r == usize::MAX,
            { usize::MAX });
        let mut update_queue: Vec<(usize, usize)> = Vec::new();
        update_queue.push((rows - 1, cols - 1));
        proof {
            assert(update_queue@ =~= seq![((rows - 1) as usize, (cols - 1) as usize)]);
            lemma_start(score_grid.backer@, risk, rows as int, cols as int, update_queue@);
            lemma_grounded_start(score_grid.backer@, risk, rows as int, cols as int);
            lemma_total_nonneg(score_grid.backer@);
        }
        while update_queue.len() > 0
            invariant
                self.wf(),
                rows == self.rows,
                cols == self.cols,
                rows >= 1,
                cols >= 1,
                risk == self.backer@,
                score_grid.wf(),
                score_grid.rows == rows,
                score_grid.cols == cols,
                forall|i: int|
                    0 <= i < update_queue.len() ==> (#[trigger] update_queue@[i]).0 < rows
                        && update_queue@[i].1 < cols,
                cautious(score_grid.backer@, risk, rows as int, cols as int),
                queued(score_grid.backer@, risk, rows as int, cols as int, update_queue@),
                grounded(score_grid.backer@, risk, rows as int, cols as int),
                total(score_grid.backer@) >= 0,
            decreases total(score_grid.backer@), update_queue.len(),
        {
            let ghost queue_before = update_queue@;
            let (y, x) = match update_queue.pop() {
                Some(c) => c,
                None => (0, 0),
            };
            assert(queue_before[queue_before.len() - 1].0 < rows);
            let ghost scores = score_grid.backer@;
            let ghost queue_mid = update_queue@;
            proof {
                lemma_cell(rows as int, cols as int, y as int, x as int);
                assert(queue_mid =~= queue_before.drop_last());
                assert(queue_before =~= queue_mid.push((y, x)));
            }
            let old = score_grid.get(y, x);
            let new: usize = if ((y + 1) == rows) && ((x + 1) == cols) {
                0
            } else {
                self.least_step(&score_grid, y, x)
            };
            if old != new {
                score_grid.put(y, x, new);
                let around = score_grid.find_adjacent(y, x);
                proof {
                    lemma_adjacent(rows as int, cols as int, y as int, x as int);
                }
                let mut k: usize = 0;
                while k < around.len()
                    invariant
                        k <= around.len(),
                        around@ == adjacent_spec(rows as int, cols as int, y as int, x as int),
                        forall|i: int|
                            0 <= i < around.len() ==> (#[trigger] around@[i]).0 < rows
                                && around@[i].1 < cols,
                        forall|i: int|
                            0 <= i < update_queue.len() ==> (#[trigger] update_queue@[i]).0 < rows
                                && update_queue@[i].1 < cols,
                        forall|i: int|
                            0 <= i < queue_mid.len() ==> update_queue@.contains(
                                #[trigger] queue_mid[i],
                            ),
                        forall|i: int| 0 <= i < k ==> update_queue@.contains(#[trigger] around@[i]),
                    decreases around.len() - k,
                {
                    let ghost q0 = update_queue@;
                    update_queue.push(around[k]);
                    proof {
                        assert(update_queue@[update_queue.len() - 1] == around@[k as int]);
                        assert forall|i: int| 0 <= i < k + 1 implies update_queue@.contains(
                            #[trigger] around@[i],
                        ) by {
                            if i < k {
                                let j = choose|j: int| 0 <= j < q0.len() && q0[j] == around@[i];
                                assert(update_queue@[j] == around@[i]);
                            }
                        }
                        assert forall|i: int| 0 <= i < queue_mid.len() implies update_queue@.contains(
                            #[trigger] queue_mid[i],
                        ) by {
                            let j = choose|j: int| 0 <= j < q0.len() && q0[j] == queue_mid[i];
                            assert(update_queue@[j] == queue_mid[i]);
                        }
                    }
                    k = k + 1;
                }
                proof {
                    lemma_lower(
                        scores,
                        risk,
                        rows as int,
                        cols as int,
                        y as int,
                        x as int,
                        queue_mid,
                        update_queue@,
                    );
                    lemma_grounded_lower(scores, risk, rows as int, cols as int, y as int, x as int);
                }
            } else {
                proof {
                    lemma_skip(scores, risk, rows as int, cols as int, queue_before);
                }
            }
        }
        proof {
            assert(update_queue@ =~= Seq::<(usize, usize)>::empty());
            lemma_done(score_grid.backer@, risk, rows as int, cols as int);
            lemma_cell(rows as int, cols as int, 0, 0);
            reveal(grounded);
            assert(cell(score_grid.backer@, cols as int, 0, 0) == score_grid.backer@[0]);
            assert forall|way: Seq<(int, int)>|
                leads(way, rows as int, cols as int, 0, 0) implies score_grid.backer@[0]
                <= #[trigger] way_risk(way, risk, cols as int) by {
                lemma_no_cheaper_way(score_grid.backer@, risk, rows as int, cols as int, way, 0, 0);
            }
        }
        score_grid.get(0, 0)
    }
}

/// Where every place costs the greatest number, every step does.
pub proof fn lemma_all_max(
    scores: Seq<usize>,
    risk: Seq<u8>,
    cols: int,
    adj: Seq<(usize, usize)>,
    k: int,
)
    requires
        0 <= k <= adj.len(),
        adj.len() > 0,
        forall|i: int|
            0 <= i < adj.len() ==> 0 <= (#[trigger] adj[i]).0 * cols + adj[i].1 < scores.len(),
        forall|i: int| 0 <= i < scores.len() ==> scores[i] == usize::MAX,
    ensures
        least_via(scores, risk, cols, adj, k) == usize::MAX,
    decreases k,
{
    assert(0 <= adj[0].0 * cols + adj[0].1 < scores.len());
    if k > 1 {
        lemma_all_max(scores, risk, cols, adj, k - 1);
        assert(0 <= adj[k - 1].0 * cols + adj[k - 1].1 < scores.len());
    }
}

/// The risks that the digits of a line give; other characters are passed
/// over.
pub open spec fn risks_of(s: Seq<char>) -> Seq<u8>
    decreases s.len(),
{
    if s.len() == 0 {
        seq![]
    } else if is_digit(s.last()) {
        risks_of(s.drop_last()).push(digit_value(s.last()) as u8)
    } else {
        risks_of(s.drop_last())
    }
}

fn read_row(s: &Vec<char>) -> (r: Vec<u8>)
    ensures
        r@ == risks_of(s@),
{
    let mut out: Vec<u8> = Vec::new();
    let mut i: usize = 0;
    while i < s.len()
        invariant
            i <= s.len(),
            out@ == risks_of(s@.subrange(0, i as int)),
        decreases s.len() - i,
    {
        proof {
            assert(s@.subrange(0, i + 1).drop_last() =~= s@.subrange(0, i as int));
            assert(s@.subrange(0, i + 1).last() == s@[i as int]);
        }
        if is_ascii_digit(s[i]) {
            out.push(digit_of(s[i]));
        }
        i = i + 1;
    }
    assert(s@.subrange(0, i as int) =~= s@);
    out
}

/// Reads the map of risks, one row from each line.
pub fn read_data(lines: &Vec<Vec<char>>) -> (r: Grid<u8>)
    ensures
        r.rows == lines.len(),
        r.cols == (if lines.len() > 0 {
            risks_of(lines[0]@).len()
        } else {
            0
        }),
        exists|rows: Seq<Vec<u8>>|
            rows.len() == lines.len() && (forall|i: int|
                0 <= i < rows.len() ==> (#[trigger] rows[i])@ == risks_of(lines[i]@))
                && r.backer@ == flatten(rows),
{
    let mut rows: Vec<Vec<u8>> = Vec::new();
    let mut i: usize = 0;
    while i < lines.len()
        invariant
            i <= lines.len(),
            rows.len() == i,
            forall|k: int| 0 <= k < i ==> (#[trigger] rows[k])@ == risks_of(lines[k]@),
        decreases lines.len() - i,
    {
        rows.push(read_row(&lines[i]));
        i = i + 1;
    }
    Grid::from_iterator(&rows)
}

/// The risk of a place of the full map: the risk of the place of the
/// small map that it repeats, raised by one for every repetition down or
/// to the right, and beginning again at 1 after 9.
pub open spec fn full_risk(small: Grid<u8>, y: int, x: int) -> int {
    (y / (small.rows as int) + x / (small.cols as int) + small.at(
        y % (small.rows as int),
        x % (small.cols as int),
    ) - 1) % 9 + 1
}

/// The full map: the small map repeated five times down and five times
/// to the right.
pub fn expand(small: &Grid<u8>) -> (r: Grid<u8>)
    requires
        small.wf(),
        small.rows >= 1,
        small.cols >= 1,
        small.rows * 5 * (small.cols * 5) <= usize::MAX,
        forall|i: int| 0 <= i < small.backer.len() ==> 1 <= #[trigger] small.backer[i] <= 9,
    ensures
        r.wf(),
        r.rows == small.rows * 5,
        r.cols == small.cols * 5,
        forall|y: int, x: int|
            0 <= y < r.rows && 0 <= x < r.cols ==> #[trigger] r.at(y, x) == full_risk(*small, y, x),
{
    let rows = small.rows;
    let cols = small.cols;
    assert(rows * 5 <= usize::MAX && cols * 5 <= usize::MAX) by (nonlinear_arith)
        requires
            rows * 5 * (cols * 5) <= usize::MAX,
            rows >= 1,
            cols >= 1,
    ;
    let mut backer: Vec<u8> = Vec::new();
    let mut y: usize = 0;
    while y < rows * 5
        invariant
            y <= rows * 5,
            small.wf(),
            rows == small.rows,
            cols == small.cols,
            rows >= 1,
            cols >= 1,
            rows * 5 <= usize::MAX,
            cols * 5 <= usize::MAX,
            rows * 5 * (cols * 5) <= usize::MAX,
            forall|i: int| 0 <= i < small.backer.len() ==> 1 <= #[trigger] small.backer[i] <= 9,
            backer.len() == y * (cols * 5),
            forall|a: int, b: int|
                0 <= a < y && 0 <= b < cols * 5 ==> #[trigger] backer[a * (cols * 5) + b]
                    == full_risk(*small, a, b),
        decreases rows * 5 - y,
    {
        let mut x: usize = 0;
        while x < cols * 5
            invariant
                x <= cols * 5,
                y < rows * 5,
                small.wf(),
                rows == small.rows,
                cols == small.cols,
                rows >= 1,
                cols >= 1,
                rows * 5 <= usize::MAX,
                cols * 5 <= usize::MAX,
                rows * 5 * (cols * 5) <= usize::MAX,
                forall|i: int| 0 <= i < small.backer.len() ==> 1 <= #[trigger] small.backer[i] <= 9,
                backer.len() == y * (cols * 5) + x,
                forall|a: int, b: int|
                    (0 <= a < y && 0 <= b < cols * 5) || (a == y && 0 <= b < x)
                        ==> #[trigger] backer[a * (cols * 5) + b] == full_risk(*small, a, b),
            decreases cols * 5 - x,
        {
            let by: usize = y / rows;
            let bx: usize = x / cols;
            let ly: usize = y % rows;
            let lx: usize = x % cols;
            proof {
                assert(by < 5 && bx < 5) by (nonlinear_arith)
                    requires
                        by == y / rows,
                        bx == x / cols,
                        y < rows * 5,
                        x < cols * 5,
                        rows >= 1,
                        cols >= 1,
                ;
                lemma_cell(rows as int, cols as int, ly as int, lx as int);
                lemma_cell((rows * 5) as int, (cols * 5) as int, y as int, x as int);
            }
            let risk = small.get(ly, lx);
            assert(1 <= small.backer[ly * cols + lx] <= 9);
            let v: u8 = ((by as u8 + bx as u8 + risk - 1) % 9) + 1;
            let ghost before = backer@;
            backer.push(v);
            proof {
                assert forall|a: int, b: int|
                    (0 <= a < y && 0 <= b < cols * 5) || (a == y && 0 <= b < x + 1)
                    implies #[trigger] backer[a * (cols * 5) + b] == full_risk(*small, a, b) by {
                    if !(a == y && b == x) {
                        lemma_cell((rows * 5) as int, (cols * 5) as int, a, b);
                        assert(a * (cols * 5) + b < y * (cols * 5) + x) by (nonlinear_arith)
                            requires
                                (0 <= a < y && 0 <= b < cols * 5) || (a == y && 0 <= b < x),
                                0 <= x,
                        ;
                        assert(backer[a * (cols * 5) + b] == before[a * (cols * 5) + b]);
                    }
                }
            }
            x = x + 1;
        }
        proof {
            assert(y * (cols * 5) + cols * 5 == (y + 1) * (cols * 5)) by (nonlinear_arith);
        }
        y = y + 1;
    }
    Grid { rows: rows * 5, cols: cols * 5, backer }
}

} // verus!
