use crate::days::{days_later, lemma_after_days, lemma_power_repeated, repeated};
use crate::text;
use vstd::prelude::*;

verus! {

/// A matrix of `rows` rows and `cols` columns, kept row by row.
#[derive(Debug)]
pub struct Matrix {
    pub rows: usize,
    pub cols: usize,
    pub backing: Vec<i128>,
}

/// The numbers of a matrix as integers.
pub open spec fn ints(v: Seq<i128>) -> Seq<int> {
    v.map_values(|x: i128| x as int)
}

/// The sum of the first `k` products of the entries of row `row` of `a`
/// with those of column `col` of `b`, where `a` has `n` columns and `b`
/// has `c`.
pub open spec fn dot(a: Seq<int>, b: Seq<int>, n: int, c: int, row: int, col: int, k: int) -> int
    decreases k,
{
    if k <= 0 {
        0
    } else {
        dot(a, b, n, c, row, col, k - 1) + a[row * n + (k - 1)] * b[(k - 1) * c + col]
    }
}

/// The product of a matrix `a` of `n` columns with a matrix `b` of `n`
/// rows and `c` columns, row by row.
pub open spec fn product(a: Seq<int>, b: Seq<int>, r: int, n: int, c: int) -> Seq<int> {
    Seq::new((r * c) as nat, |i: int| dot(a, b, n, c, i / c, i % c, n))
}

/// Whether `v` lies in the range of `i128`.
pub open spec fn fits(v: int) -> bool {
    i128::MIN <= v <= i128::MAX
}

/// Whether the first `k` products of `dot`, and the sums of them that
/// are made one after another, stay in the range of `i128`.
pub open spec fn dot_fits(a: Seq<int>, b: Seq<int>, n: int, c: int, row: int, col: int, k: int)
    -> bool
    decreases k,
{
    k <= 0 || (dot_fits(a, b, n, c, row, col, k - 1) && fits(
        a[row * n + (k - 1)] * b[(k - 1) * c + col],
    ) && fits(dot(a, b, n, c, row, col, k)))
}

/// Whether the product of two matrices can be worked out in `i128`.
pub open spec fn product_fits(a: Seq<int>, b: Seq<int>, r: int, n: int, c: int) -> bool {
    forall|row: int, col: int|
        0 <= row < r && 0 <= col < c ==> #[trigger] dot_fits(a, b, n, c, row, col, n)
}

pub proof fn lemma_dot_fits_prefix(
    a: Seq<int>,
    b: Seq<int>,
    n: int,
    c: int,
    row: int,
    col: int,
    k: int,
    m: int,
)
    requires
        k <= m,
        dot_fits(a, b, n, c, row, col, m),
    ensures
        dot_fits(a, b, n, c, row, col, k),
    decreases m - k,
{
    if k < m && m > 0 {
        lemma_dot_fits_prefix(a, b, n, c, row, col, k, m - 1);
    }
}

/// The identity matrix of `n` rows.
pub open spec fn identity(n: int) -> Seq<int> {
    Seq::new(
        (n * n) as nat,
        |i: int|
            if i / n == i % n {
                1int
            } else {
                0int
            },
    )
}

/// The power `m` to the `e` of a square matrix of `n` rows, worked out
/// by squaring: the power of half the exponent is squared, and
/// multiplied by `m` once more where the exponent is odd.
pub open spec fn power(m: Seq<int>, n: int, e: nat) -> Seq<int>
    decreases e,
{
    if e == 0 {
        identity(n)
    } else if e == 1 {
        m
    } else {
        let half = power(m, n, e / 2);
        let square = product(half, half, n, n, n);
        if e % 2 != 0 {
            product(square, m, n, n, n)
        } else {
            square
        }
    }
}

/// Whether the power of a matrix can be worked out in `i128` by
/// squaring.
pub open spec fn power_fits(m: Seq<int>, n: int, e: nat) -> bool
    decreases e,
{
    if e <= 1 {
        true
    } else {
        let half = power(m, n, e / 2);
        let square = product(half, half, n, n, n);
        power_fits(m, n, e / 2) && product_fits(half, half, n, n, n) && (e % 2 != 0
            ==> product_fits(square, m, n, n, n))
    }
}

pub proof fn lemma_index(r: int, c: int, row: int, col: int)
    requires
        0 <= row < r,
        0 <= col < c,
    ensures
        0 <= row * c + col < r * c,
        (row * c + col) / c == row,
        (row * c + col) % c == col,
{
    assert(0 <= row * c + col < r * c && (row * c + col) / c == row && (row * c + col) % c == col)
        by (nonlinear_arith)
        requires
            0 <= row < r,
            0 <= col < c,
    ;
}

impl Matrix {
    /// Whether the matrix holds a number for every place.
    pub open spec fn wf(&self) -> bool {
        self.backing.len() == self.rows * self.cols
    }

    /// The identity matrix of `n` rows.
    pub fn ident(n: usize) -> (m: Matrix)
        requires
            n * n <= usize::MAX,
        ensures
            m.wf(),
            m.rows == n,
            m.cols == n,
            ints(m.backing@) == identity(n as int),
    {
        let mut backing: Vec<i128> = Vec::new();
        let mut row: usize = 0;
        while row < n
            invariant
                row <= n,
                n * n <= usize::MAX,
                backing.len() == row * n,
                forall|i: int|
                    0 <= i < backing.len() ==> #[trigger] backing[i] == (if i / (n as int) == i % (
                    n as int) {
                        1i128
                    } else {
                        0i128
                    }),
            decreases n - row,
        {
            let mut col: usize = 0;
            while col < n
                invariant
                    col <= n,
                    row < n,
                    n * n <= usize::MAX,
                    backing.len() == row * n + col,
                    forall|i: int|
                        0 <= i < backing.len() ==> #[trigger] backing[i] == (if i / (n as int) == i
                            % (n as int) {
                            1i128
                        } else {
                            0i128
                        }),
                decreases n - col,
            {
                proof {
                    lemma_index(n as int, n as int, row as int, col as int);
                }
                backing.push(
                    if row == col {
                        1
                    } else {
                        0
                    },
                );
                col = col + 1;
            }
            proof {
                assert(row * n + n == (row + 1) * n) by (nonlinear_arith);
            }
            row = row + 1;
        }
        let m = Matrix { rows: n, cols: n, backing };
        assert(ints(m.backing@) =~= identity(n as int));
        m
    }
}

impl Matrix {
    /// The sum of two matrices of one shape, place by place. `None` when
    /// a sum leaves the range of `i128`.
    pub fn add(&self, rhs: &Matrix) -> (r: Option<Matrix>)
        requires
            self.rows == rhs.rows,
            self.cols == rhs.cols,
            self.backing.len() == rhs.backing.len(),
        ensures
            r is Some <==> forall|i: int|
                0 <= i < self.backing.len() ==> fits(#[trigger] self.backing[i] + rhs.backing[i]),
            r matches Some(m) ==> m.rows == self.rows && m.cols == self.cols && m.backing.len()
                == self.backing.len() && forall|i: int|
                0 <= i < m.backing.len() ==> #[trigger] m.backing[i] == self.backing[i]
                    + rhs.backing[i],
    {
        let mut backing: Vec<i128> = Vec::new();
        let mut i: usize = 0;
        while i < self.backing.len()
            invariant
                i <= self.backing.len(),
                self.backing.len() == rhs.backing.len(),
                backing.len() == i,
                forall|k: int|
                    0 <= k < i ==> fits(#[trigger] self.backing[k] + rhs.backing[k]) && backing[k]
                        == self.backing[k] + rhs.backing[k],
            decreases self.backing.len() - i,
        {
            match self.backing[i].checked_add(rhs.backing[i]) {
                Some(v) => {
                    backing.push(v);
                },
                None => {
                    assert(!fits(self.backing[i as int] + rhs.backing[i as int]));
                    return None;
                },
            }
            i = i + 1;
        }
        Some(Matrix { rows: self.rows, cols: self.cols, backing })
    }

    /// The difference of two matrices of one shape, place by place.
    /// `None` when a difference leaves the range of `i128`.
    pub fn sub(&self, rhs: &Matrix) -> (r: Option<Matrix>)
        requires
            self.rows == rhs.rows,
            self.cols == rhs.cols,
            self.backing.len() == rhs.backing.len(),
        ensures
            r is Some <==> forall|i: int|
                0 <= i < self.backing.len() ==> fits(#[trigger] self.backing[i] - rhs.backing[i]),
            r matches Some(m) ==> m.rows == self.rows && m.cols == self.cols && m.backing.len()
                == self.backing.len() && forall|i: int|
                0 <= i < m.backing.len() ==> #[trigger] m.backing[i] == self.backing[i]
                    - rhs.backing[i],
    {
        let mut backing: Vec<i128> = Vec::new();
        let mut i: usize = 0;
        while i < self.backing.len()
            invariant
                i <= self.backing.len(),
                self.backing.len() == rhs.backing.len(),
                backing.len() == i,
                forall|k: int|
                    0 <= k < i ==> fits(#[trigger] self.backing[k] - rhs.backing[k]) && backing[k]
                        == self.backing[k] - rhs.backing[k],
            decreases self.backing.len() - i,
        {
            match self.backing[i].checked_sub(rhs.backing[i]) {
                Some(v) => {
                    backing.push(v);
                },
                None => {
                    assert(!fits(self.backing[i as int] - rhs.backing[i as int]));
                    return None;
                },
            }
            i = i + 1;
        }
        Some(Matrix { rows: self.rows, cols: self.cols, backing })
    }
}

fn copy_matrix(m: &Matrix) -> (r: Matrix)
    ensures
        r.rows == m.rows,
        r.cols == m.cols,
        r.backing@ == m.backing@,
{
    let mut backing: Vec<i128> = Vec::new();
    let mut i: usize = 0;
    while i < m.backing.len()
        invariant
            i <= m.backing.len(),
            backing@ == m.backing@.subrange(0, i as int),
        decreases m.backing.len() - i,
    {
        backing.push(m.backing[i]);
        i = i + 1;
        assert(backing@ =~= m.backing@.subrange(0, i as int));
    }
    assert(m.backing@.subrange(0, i as int) =~= m.backing@);
    Matrix { rows: m.rows, cols: m.cols, backing }
}

/// Multiplies two matrices. `None` when a product or a sum leaves the
/// range of `i128` on the way.
pub fn matrix_multiply(a: &Matrix, b: &Matrix) -> (r: Option<Matrix>)
    requires
        a.wf(),
        b.wf(),
        a.cols == b.rows,
        a.rows * b.cols <= usize::MAX,
    ensures
        r is Some <==> product_fits(
            ints(a.backing@),
            ints(b.backing@),
            a.rows as int,
            a.cols as int,
            b.cols as int,
        ),
        r matches Some(m) ==> m.wf() && m.rows == a.rows && m.cols == b.cols && ints(m.backing@)
            == product(
            ints(a.backing@),
            ints(b.backing@),
            a.rows as int,
            a.cols as int,
            b.cols as int,
        ),
{
    let n = a.cols;
    let c = b.cols;
    let ghost ai = ints(a.backing@);
    let ghost bi = ints(b.backing@);
    let mut ret: Vec<i128> = Vec::new();
    let mut row: usize = 0;
    while row < a.rows
        invariant
            row <= a.rows,
            a.wf(),
            b.wf(),
            n == a.cols,
            n == b.rows,
            c == b.cols,
            a.rows * c <= usize::MAX,
            ai == ints(a.backing@),
            bi == ints(b.backing@),
            ret.len() == row * c,
            forall|i: int|
                0 <= i < ret.len() ==> #[trigger] ret[i] == dot(
                    ai,
                    bi,
                    n as int,
                    c as int,
                    i / (c as int),
                    i % (c as int),
                    n as int,
                ),
            forall|y: int, x: int|
                0 <= y < row && 0 <= x < c ==> #[trigger] dot_fits(
                    ai,
                    bi,
                    n as int,
                    c as int,
                    y,
                    x,
                    n as int,
                ),
        decreases a.rows - row,
    {
        let mut col: usize = 0;
        while col < c
            invariant
                col <= c,
                row < a.rows,
                a.wf(),
                b.wf(),
                n == a.cols,
                n == b.rows,
                c == b.cols,
                a.rows * c <= usize::MAX,
                ai == ints(a.backing@),
                bi == ints(b.backing@),
                ret.len() == row * c + col,
                forall|i: int|
                    0 <= i < ret.len() ==> #[trigger] ret[i] == dot(
                        ai,
                        bi,
                        n as int,
                        c as int,
                        i / (c as int),
                        i % (c as int),
                        n as int,
                    ),
                forall|y: int, x: int|
                    (0 <= y < row && 0 <= x < c) || (y == row && 0 <= x < col)
                        ==> #[trigger] dot_fits(ai, bi, n as int, c as int, y, x, n as int),
            decreases c - col,
        {
            let mut acc: i128 = 0;
            let mut i: usize = 0;
            while i < n
                invariant
                    i <= n,
                    row < a.rows,
                    col < c,
                    a.wf(),
                    b.wf(),
                    n == a.cols,
                    n == b.rows,
                    c == b.cols,
                    ai == ints(a.backing@),
                    bi == ints(b.backing@),
                    acc == dot(ai, bi, n as int, c as int, row as int, col as int, i as int),
                    dot_fits(ai, bi, n as int, c as int, row as int, col as int, i as int),
                decreases n - i,
            {
                proof {
                    lemma_index(a.rows as int, n as int, row as int, i as int);
                    lemma_index(n as int, c as int, i as int, col as int);
                }
                let x = a.backing[row * n + i];
                let y = b.backing[i * c + col];
                assert(ai[row * n + i] == x as int);
                assert(bi[i * c + col] == y as int);
                let ghost stop = !fits(x * y) || !fits(acc + x * y);
                proof {
                    if stop {
                        assert(!dot_fits(ai, bi, n as int, c as int, row as int, col as int, i + 1));
                        if dot_fits(ai, bi, n as int, c as int, row as int, col as int, n as int) {
                            lemma_dot_fits_prefix(
                                ai,
                                bi,
                                n as int,
                                c as int,
                                row as int,
                                col as int,
                                i + 1,
                                n as int,
                            );
                        }
                    }
                }
                let term = match x.checked_mul(y) {
                    Some(t) => t,
                    None => {
                        return None;
                    },
                };
                acc = match acc.checked_add(term) {
                    Some(t) => t,
                    None => {
                        return None;
                    },
                };
                i = i + 1;
            }
            proof {
                lemma_index(a.rows as int, c as int, row as int, col as int);
            }
            ret.push(acc);
            col = col + 1;
        }
        proof {
            assert(row * c + c == (row + 1) * c) by (nonlinear_arith);
        }
        row = row + 1;
    }
    let m = Matrix { rows: a.rows, cols: c, backing: ret };
    assert(ints(m.backing@) =~= product(ai, bi, a.rows as int, n as int, c as int));
    Some(m)
}

/// Raises a square matrix to the power `e`: the product of `e` such
/// matrices, worked out by squaring. `None` when a number leaves the
/// range of `i128` on the way.
pub fn matrix_pow(m: &Matrix, e: usize) -> (r: Option<Matrix>)
    requires
        m.wf(),
        m.rows == m.cols,
    ensures
        r is Some <==> power_fits(ints(m.backing@), m.rows as int, e as nat),
        r matches Some(p) ==> p.wf() && p.rows == m.rows && p.cols == m.cols && ints(p.backing@)
            == power(ints(m.backing@), m.rows as int, e as nat),
        r matches Some(p) ==> m.rows > 0 ==> ints(p.backing@) == repeated(
            ints(m.backing@),
            m.rows as int,
            e as nat,
        ),
    decreases e,
{
    proof {
        if m.rows > 0 {
            lemma_power_repeated(ints(m.backing@), m.rows as int, e as nat);
        }
    }
    if e == 0 {
        Some(Matrix::ident(m.rows))
    } else if e == 1 {
        Some(copy_matrix(m))
    } else {
        let sub = match matrix_pow(m, e / 2) {
            Some(s) => s,
            None => {
                return None;
            },
        };
        let square = match matrix_multiply(&sub, &sub) {
            Some(s) => s,
            None => {
                return None;
            },
        };
        if e % 2 != 0 {
            matrix_multiply(&square, m)
        } else {
            Some(square)
        }
    }
}

/// One day in the life of the fish, as a matrix on the numbers of fish
/// with each timer: every timer falls by one; a fish at 0 goes to 6 and
/// a new fish begins at 8.
pub open spec fn one_day() -> Seq<int> {
    seq![
        0, 1, 0, 0, 0, 0, 0, 0, 0,
        0, 0, 1, 0, 0, 0, 0, 0, 0,
        0, 0, 0, 1, 0, 0, 0, 0, 0,
        0, 0, 0, 0, 1, 0, 0, 0, 0,
        0, 0, 0, 0, 0, 1, 0, 0, 0,
        0, 0, 0, 0, 0, 0, 1, 0, 0,
        1, 0, 0, 0, 0, 0, 0, 1, 0,
        0, 0, 0, 0, 0, 0, 0, 0, 1,
        1, 0, 0, 0, 0, 0, 0, 0, 0,
    ]
}

fn one_sim() -> (m: Matrix)
    ensures
        m.wf(),
        m.rows == 9,
        m.cols == 9,
        ints(m.backing@) == one_day(),
{
    let backing: Vec<i128> = vec![
        0, 1, 0, 0, 0, 0, 0, 0, 0,
        0, 0, 1, 0, 0, 0, 0, 0, 0,
        0, 0, 0, 1, 0, 0, 0, 0, 0,
        0, 0, 0, 0, 1, 0, 0, 0, 0,
        0, 0, 0, 0, 0, 1, 0, 0, 0,
        0, 0, 0, 0, 0, 0, 1, 0, 0,
        1, 0, 0, 0, 0, 0, 0, 1, 0,
        0, 0, 0, 0, 0, 0, 0, 0, 1,
        1, 0, 0, 0, 0, 0, 0, 0, 0,
    ];
    assert(backing@.len() == 81);
    let m = Matrix { rows: 9, cols: 9, backing };
    assert(m.rows * m.cols == 81) by (nonlinear_arith)
        requires
            m.rows == 9,
            m.cols == 9,
    ;
    assert(ints(m.backing@) =~= one_day());
    m
}

/// The numbers of fish with each timer after `time` days.
pub open spec fn after_days(data: Seq<int>, time: nat) -> Seq<int> {
    product(power(one_day(), 9, time), data, 9, 9, 1)
}

/// Whether the numbers after `time` days can be worked out in `i128`.
pub open spec fn days_fit(data: Seq<int>, time: nat) -> bool {
    power_fits(one_day(), 9, time) && product_fits(power(one_day(), 9, time), data, 9, 9, 1)
}

/// Lets `time` days pass. Returns `false`, and leaves the numbers alone,
/// when a number leaves the range of `i128` on the way.
pub fn sim_for(data: &mut [i128; 9], time: usize) -> (ok: bool)
    ensures
        ok == days_fit(ints(old(data)@), time as nat),
        ok ==> ints(final(data)@) == days_later(ints(old(data)@), time as nat),
        ok ==> ints(final(data)@) == after_days(ints(old(data)@), time as nat),
        !ok ==> *final(data) == *old(data),
{
    proof {
        lemma_after_days(ints(data@), time as nat);
    }
    let mut column: Vec<i128> = Vec::new();
    let mut i: usize = 0;
    while i < 9
        invariant
            i <= 9,
            column@ == data@.subrange(0, i as int),
        decreases 9 - i,
    {
        column.push(data[i]);
        i = i + 1;
        assert(column@ =~= data@.subrange(0, i as int));
    }
    assert(column@ =~= data@);
    let m_data = Matrix { rows: 9, cols: 1, backing: column };
    let sim = one_sim();
    let grown = match matrix_pow(&sim, time) {
        Some(p) => p,
        None => {
            return false;
        },
    };
    let res = match matrix_multiply(&grown, &m_data) {
        Some(p) => p,
        None => {
            return false;
        },
    };
    let mut i: usize = 0;
    let ghost before = data@;
    while i < 9
        invariant
            i <= 9,
            res.backing.len() == 9,
            forall|k: int| 0 <= k < i ==> data@[k] == res.backing@[k],
        decreases 9 - i,
    {
        data[i] = res.backing[i];
        i = i + 1;
    }
    assert(data@ =~= res.backing@);
    true
}

/// The sum of a list of numbers.
pub open spec fn total(v: Seq<int>) -> int
    decreases v.len(),
{
    if v.len() == 0 {
        0
    } else {
        total(v.drop_last()) + v.last()
    }
}

/// Whether the sums of the numbers, made one after another, stay in the
/// range of `i128`.
pub open spec fn sums_fit(v: Seq<int>) -> bool
    decreases v.len(),
{
    v.len() == 0 || (sums_fit(v.drop_last()) && fits(total(v)))
}

pub proof fn lemma_sums_fit_prefix(v: Seq<int>, k: int)
    requires
        0 <= k <= v.len(),
        sums_fit(v),
    ensures
        sums_fit(v.subrange(0, k)),
    decreases v.len() - k,
{
    if k == v.len() {
        assert(v.subrange(0, k) =~= v);
    } else {
        assert(v.drop_last().subrange(0, k) =~= v.subrange(0, k));
        lemma_sums_fit_prefix(v.drop_last(), k);
    }
}

/// The number of all fish. `None` when it leaves the range of `i128`.
pub fn sum_data(data: &[i128; 9]) -> (r: Option<i128>)
    ensures
        r is Some <==> sums_fit(ints(data@)),
        r matches Some(v) ==> v == total(ints(data@)),
{
    let ghost all = ints(data@);
    let mut sum: i128 = 0;
    let mut i: usize = 0;
    while i < 9
        invariant
            i <= 9,
            all == ints(data@),
            sum == total(all.subrange(0, i as int)),
            sums_fit(all.subrange(0, i as int)),
        decreases 9 - i,
    {
        proof {
            assert(all.subrange(0, i + 1).drop_last() =~= all.subrange(0, i as int));
            assert(all.subrange(0, i + 1).last() == data@[i as int] as int);
        }
        sum = match sum.checked_add(data[i]) {
            Some(v) => v,
            None => {
                proof {
                    assert(!sums_fit(all.subrange(0, i + 1)));
                    if sums_fit(all) {
                        lemma_sums_fit_prefix(all, i + 1);
                    }
                }
                return None;
            },
        };
        i = i + 1;
    }
    assert(all.subrange(0, i as int) =~= all);
    Some(sum)
}

/// The timers that the pieces of a text between commas stand for, each
/// read as an `i32`; white space at the end of the text is dropped.
pub open spec fn timers_of(s: Seq<char>) -> Option<Seq<i32>> {
    crate::crabs::numbers_of(text::split_spec(text::trim_end_spec(s), ','))
}

/// Reads the timers of the fish.
pub fn read_data(input: &Vec<char>) -> (r: Option<Vec<i32>>)
    ensures
        (match r {
            Some(v) => Some(v@),
            None => None,
        }) == timers_of(input@),
{
    let trimmed = text::trim_end(input);
    let pieces = text::split(&trimmed, ',');
    crate::crabs::numbers_from(&pieces)
}

/// The number of fish among the first `n` whose timer is `t`.
pub open spec fn count_timer(fish: Seq<i32>, t: int, n: int) -> int
    decreases n,
{
    if n <= 0 {
        0
    } else {
        count_timer(fish, t, n - 1) + (if fish[n - 1] == t {
            1int
        } else {
            0int
        })
    }
}

/// Counts the fish with each timer from 0 to 8. `None` when a timer is
/// none of these.
pub fn census(fish: &Vec<i32>) -> (r: Option<[i128; 9]>)
    ensures
        r is Some <==> forall|i: int| 0 <= i < fish.len() ==> 0 <= #[trigger] fish[i] < 9,
        r matches Some(data) ==> forall|t: int|
            0 <= t < 9 ==> #[trigger] data@[t] == count_timer(fish@, t, fish.len() as int),
{
    let mut data: [i128; 9] = [0, 0, 0, 0, 0, 0, 0, 0, 0];
    let mut i: usize = 0;
    while i < fish.len()
        invariant
            i <= fish.len(),
            forall|k: int| 0 <= k < i ==> 0 <= #[trigger] fish[k] < 9,
            forall|t: int| 0 <= t < 9 ==> #[trigger] data@[t] == count_timer(fish@, t, i as int),
            forall|t: int| 0 <= t < 9 ==> 0 <= #[trigger] data@[t] <= i,
        decreases fish.len() - i,
    {
        let n = fish[i];
        if n < 0 || n >= 9 {
            return None;
        }
        let ghost before = data@;
        data[n as usize] = data[n as usize] + 1;
        assert forall|t: int| 0 <= t < 9 implies #[trigger] data@[t] == count_timer(
            fish@,
            t,
            i + 1,
        ) by {
            assert(before[t] == count_timer(fish@, t, i as int));
        }
        i = i + 1;
    }
    Some(data)
}

} // verus!
