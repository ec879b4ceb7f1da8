use crate::lanternfish::{dot, lemma_index};
use crate::text;
use vstd::prelude::*;

verus! {

/// A matrix kept row by row in an array of `N` numbers.
#[derive(Copy, Clone, Debug)]
pub struct Matrix<const N: usize> {
    pub backing: [i32; N],
}

/// The numbers of a matrix as integers.
pub open spec fn ints(v: Seq<i32>) -> Seq<int> {
    v.map_values(|x: i32| x as int)
}

/// Whether every number of the list lies within `b` of 0.
pub open spec fn bounded(v: Seq<i32>, b: int) -> bool {
    forall|i: int| 0 <= i < v.len() ==> -b <= #[trigger] v[i] <= b
}

impl<const N: usize> Matrix<N> {
    /// The sum of two matrices, place by place.
    pub fn add(self, rhs: Matrix<N>) -> (r: Matrix<N>)
        requires
            forall|i: int| 0 <= i < N ==> i32::MIN <= #[trigger] self.backing[i] + rhs.backing[i] <= i32::MAX,
        ensures
            forall|i: int| 0 <= i < N ==> #[trigger] r.backing[i] == self.backing[i] + rhs.backing[i],
    {
        let mut ret = self.backing;
        let mut i: usize = 0;
        while i < N
            invariant
                i <= N,
                forall|k: int|
                    0 <= k < N ==> i32::MIN <= #[trigger] self.backing[k] + rhs.backing[k]
                        <= i32::MAX,
                forall|k: int| 0 <= k < i ==> #[trigger] ret[k] == self.backing[k] + rhs.backing[k],
                forall|k: int| i <= k < N ==> #[trigger] ret[k] == self.backing[k],
            decreases N - i,
        {
            assert(i32::MIN <= self.backing[i as int] + rhs.backing[i as int] <= i32::MAX);
            ret[i] = self.backing[i] + rhs.backing[i];
            i = i + 1;
        }
        Matrix { backing: ret }
    }

    /// The difference of two matrices, place by place.
    pub fn sub(self, rhs: Matrix<N>) -> (r: Matrix<N>)
        requires
            forall|i: int| 0 <= i < N ==> i32::MIN <= #[trigger] self.backing[i] - rhs.backing[i] <= i32::MAX,
        ensures
            forall|i: int| 0 <= i < N ==> #[trigger] r.backing[i] == self.backing[i] - rhs.backing[i],
    {
        let mut ret = self.backing;
        let mut i: usize = 0;
        while i < N
            invariant
                i <= N,
                forall|k: int|
                    0 <= k < N ==> i32::MIN <= #[trigger] self.backing[k] - rhs.backing[k]
                        <= i32::MAX,
                forall|k: int| 0 <= k < i ==> #[trigger] ret[k] == self.backing[k] - rhs.backing[k],
                forall|k: int| i <= k < N ==> #[trigger] ret[k] == self.backing[k],
            decreases N - i,
        {
            assert(i32::MIN <= self.backing[i as int] - rhs.backing[i as int] <= i32::MAX);
            ret[i] = self.backing[i] - rhs.backing[i];
            i = i + 1;
        }
        Matrix { backing: ret }
    }

    /// The transpose of a square matrix of `n` rows.
    pub fn transpose(&self, n: usize) -> (r: Matrix<N>)
        requires
            n * n == N,
        ensures
            forall|row: int, col: int|
                0 <= row < n && 0 <= col < n ==> #[trigger] r.backing[col * n + row]
                    == self.backing[row * n + col],
    {
        let mut ret = self.backing;
        let mut row: usize = 0;
        while row < n
            invariant
                row <= n,
                n * n == N,
                forall|a: int, b: int|
                    0 <= a < row && 0 <= b < n ==> #[trigger] ret[b * n + a] == self.backing[a * n
                        + b],
            decreases n - row,
        {
            let mut col: usize = 0;
            while col < n
                invariant
                    col <= n,
                    row < n,
                    n * n == N,
                    forall|a: int, b: int|
                        (0 <= a < row && 0 <= b < n) || (a == row && 0 <= b < col)
                            ==> #[trigger] ret[b * n + a] == self.backing[a * n + b],
                decreases n - col,
            {
                proof {
                    lemma_index(n as int, n as int, row as int, col as int);
                    lemma_index(n as int, n as int, col as int, row as int);
                }
                let ghost before = ret;
                ret[col * n + row] = self.backing[row * n + col];
                proof {
                    assert forall|a: int, b: int|
                        (0 <= a < row && 0 <= b < n) || (a == row && 0 <= b < col + 1)
                        implies #[trigger] ret[b * n + a] == self.backing[a * n + b] by {
                        if !(a == row && b == col) {
                            lemma_index(n as int, n as int, b, a);
                            assert(before[b * n + a] == self.backing[a * n + b]);
                            if b * n + a == col * n + row {
                                crate::chiton::lemma_cell_unique(n as int, b, a, col as int, row as int);
                            }
                        }
                    }
                }
                col = col + 1;
            }
            row = row + 1;
        }
        Matrix { backing: ret }
    }
}

/// Multiplies a matrix of `rows` rows and `inner` columns with a matrix of
/// `inner` rows and `cols` columns.
pub fn matrix_multiply<const AB: usize, const BC: usize, const AC: usize>(
    a: &Matrix<AB>,
    b: &Matrix<BC>,
    rows: usize,
    inner: usize,
    cols: usize,
) -> (r: Matrix<AC>)
    requires
        AB == rows * inner,
        BC == inner * cols,
        AC == rows * cols,
        exists|ba: int, bb: int|
            0 <= ba && 0 <= bb && #[trigger] bounded(a.backing@, ba) && #[trigger] bounded(
                b.backing@,
                bb,
            ) && inner * (ba * bb) <= i32::MAX,
    ensures
        forall|row: int, col: int|
            0 <= row < rows && 0 <= col < cols ==> #[trigger] r.backing[row * cols + col] == dot(
                ints(a.backing@),
                ints(b.backing@),
                inner as int,
                cols as int,
                row,
                col,
                inner as int,
            ),
{
    let ghost ai = ints(a.backing@);
    let ghost bi = ints(b.backing@);
    let ghost (ba, bb) = choose|ba: int, bb: int|
        0 <= ba && 0 <= bb && #[trigger] bounded(a.backing@, ba) && #[trigger] bounded(
            b.backing@,
            bb,
        ) && inner * (ba * bb) <= i32::MAX;
    let mut ret: [i32; AC] = vstd::array::array_fill_for_copy_types(0);
    let mut row: usize = 0;
    while row < rows
        invariant
            row <= rows,
            AB == rows * inner,
            BC == inner * cols,
            AC == rows * cols,
            ai == ints(a.backing@),
            bi == ints(b.backing@),
            0 <= ba,
            0 <= bb,
            bounded(a.backing@, ba),
            bounded(b.backing@, bb),
            inner * (ba * bb) <= i32::MAX,
            forall|p: int, q: int|
                0 <= p < row && 0 <= q < cols ==> #[trigger] ret[p * cols + q] == dot(
                    ai,
                    bi,
                    inner as int,
                    cols as int,
                    p,
                    q,
                    inner as int,
                ),
        decreases rows - row,
    {
        let mut col: usize = 0;
        while col < cols
            invariant
                col <= cols,
                row < rows,
                AB == rows * inner,
                BC == inner * cols,
                AC == rows * cols,
                ai == ints(a.backing@),
                bi == ints(b.backing@),
                0 <= ba,
                0 <= bb,
                bounded(a.backing@, ba),
                bounded(b.backing@, bb),
                inner * (ba * bb) <= i32::MAX,
                forall|p: int, q: int|
                    (0 <= p < row && 0 <= q < cols) || (p == row && 0 <= q < col)
                        ==> #[trigger] ret[p * cols + q] == dot(
                        ai,
                        bi,
                        inner as int,
                        cols as int,
                        p,
                        q,
                        inner as int,
                    ),
            decreases cols - col,
        {
            let mut acc: i32 = 0;
            let mut i: usize = 0;
            while i < inner
                invariant
                    i <= inner,
                    row < rows,
                    col < cols,
                    AB == rows * inner,
                    BC == inner * cols,
                    ai == ints(a.backing@),
                    bi == ints(b.backing@),
                    0 <= ba,
                    0 <= bb,
                    bounded(a.backing@, ba),
                    bounded(b.backing@, bb),
                    inner * (ba * bb) <= i32::MAX,
                    acc == dot(ai, bi, inner as int, cols as int, row as int, col as int, i as int),
                    -(i * (ba * bb)) <= acc <= i * (ba * bb),
                decreases inner - i,
            {
                proof {
                    lemma_index(rows as int, inner as int, row as int, i as int);
                    lemma_index(inner as int, cols as int, i as int, col as int);
                }
                let x = a.backing[row * inner + i];
                let y = b.backing[i * cols + col];
                proof {
                    assert(-ba <= a.backing@[row * inner + i] <= ba);
                    assert(-bb <= b.backing@[i * cols + col] <= bb);
                    assert(-(ba * bb) <= x * y <= ba * bb) by (nonlinear_arith)
                        requires
                            -ba <= x <= ba,
                            -bb <= y <= bb,
                    ;
                    assert((i + 1) * (ba * bb) <= inner * (ba * bb) && (i + 1) * (ba * bb) == i * (
                    ba * bb) + ba * bb) by (nonlinear_arith)
                        requires
                            i + 1 <= inner,
                            0 <= ba * bb,
                    ;
                    assert(0 <= ba * bb) by (nonlinear_arith)
                        requires
                            0 <= ba,
                            0 <= bb,
                    ;
                    assert(ai[row * inner + i] == x as int);
                    assert(bi[i * cols + col] == y as int);
                }
                acc = acc + x * y;
                i = i + 1;
            }
            proof {
                lemma_index(rows as int, cols as int, row as int, col as int);
            }
            let ghost before = ret;
            ret[row * cols + col] = acc;
            proof {
                assert forall|p: int, q: int|
                    (0 <= p < row && 0 <= q < cols) || (p == row && 0 <= q < col + 1)
                    implies #[trigger] ret[p * cols + q] == dot(
                    ai,
                    bi,
                    inner as int,
                    cols as int,
                    p,
                    q,
                    inner as int,
                ) by {
                    if !(p == row && q == col) {
                        lemma_index(rows as int, cols as int, p, q);
                        if p * cols + q == row * cols + col {
                            crate::chiton::lemma_cell_unique(cols as int, p, q, row as int, col as int);
                        }
                        assert(before[p * cols + q] == ret[p * cols + q]);
                    }
                }
            }
            col = col + 1;
        }
        row = row + 1;
    }
    Matrix { backing: ret }
}

/// A point of space, or the step from one point to another.
#[derive(Copy, Clone, Debug)]
pub struct Vec3i(pub Matrix<3>);

/// A turn of space: a matrix of three rows.
#[derive(Copy, Clone, Debug)]
pub struct Rot(pub Matrix<9>);

/// A turn followed by a shift.
#[derive(Copy, Clone, Debug)]
pub struct RotAndTrans {
    pub rot: Rot,
    pub trans: Vec3i,
}

/// The coordinates of a point.
pub open spec fn pt(v: Vec3i) -> (int, int, int) {
    (v.0.backing[0] as int, v.0.backing[1] as int, v.0.backing[2] as int)
}

/// The points of a list.
pub open spec fn pts(s: Seq<Vec3i>) -> Seq<(int, int, int)> {
    s.map_values(|v: Vec3i| pt(v))
}

/// The numbers of a turn, row by row.
pub open spec fn mat(r: Rot) -> Seq<int> {
    ints(r.0.backing@)
}

/// The point that a matrix of three rows makes of a point.
pub open spec fn turn(m: Seq<int>, p: (int, int, int)) -> (int, int, int) {
    (
        m[0] * p.0 + m[1] * p.1 + m[2] * p.2,
        m[3] * p.0 + m[4] * p.1 + m[5] * p.2,
        m[6] * p.0 + m[7] * p.1 + m[8] * p.2,
    )
}

/// The product of two matrices of three rows.
pub open spec fn compose(a: Seq<int>, b: Seq<int>) -> Seq<int> {
    seq![
        a[0] * b[0] + a[1] * b[3] + a[2] * b[6],
        a[0] * b[1] + a[1] * b[4] + a[2] * b[7],
        a[0] * b[2] + a[1] * b[5] + a[2] * b[8],
        a[3] * b[0] + a[4] * b[3] + a[5] * b[6],
        a[3] * b[1] + a[4] * b[4] + a[5] * b[7],
        a[3] * b[2] + a[4] * b[5] + a[5] * b[8],
        a[6] * b[0] + a[7] * b[3] + a[8] * b[6],
        a[6] * b[1] + a[7] * b[4] + a[8] * b[7],
        a[6] * b[2] + a[7] * b[5] + a[8] * b[8],
    ]
}

pub open spec fn plus(a: (int, int, int), b: (int, int, int)) -> (int, int, int) {
    (a.0 + b.0, a.1 + b.1, a.2 + b.2)
}

pub open spec fn minus(a: (int, int, int), b: (int, int, int)) -> (int, int, int) {
    (a.0 - b.0, a.1 - b.1, a.2 - b.2)
}

pub open spec fn abs(v: int) -> int {
    if v < 0 {
        -v
    } else {
        v
    }
}

/// Whether every coordinate of the point lies within `b` of 0.
pub open spec fn near(p: (int, int, int), b: int) -> bool {
    abs(p.0) <= b && abs(p.1) <= b && abs(p.2) <= b
}

/// Whether a row of three numbers holds one 1 or -1 and two 0.
pub open spec fn unit_row(a: int, b: int, c: int) -> bool {
    (abs(a) == 1 && b == 0 && c == 0) || (a == 0 && abs(b) == 1 && c == 0) || (a == 0 && b == 0
        && abs(c) == 1)
}

/// Whether a matrix of three rows moves the axes onto one another: each
/// row and each column holds one 1 or -1 and two 0.
pub open spec fn axial(m: Seq<int>) -> bool {
    m.len() == 9 && unit_row(m[0], m[1], m[2]) && unit_row(m[3], m[4], m[5]) && unit_row(
        m[6],
        m[7],
        m[8],
    ) && unit_row(m[0], m[3], m[6]) && unit_row(m[1], m[4], m[7]) && unit_row(m[2], m[5], m[8])
}

pub proof fn lemma_unit_times(a: int, b: int, c: int, x: int, y: int, z: int)
    requires
        unit_row(a, b, c),
    ensures
        a * x + b * y + c * z == (if a == 1 {
            x
        } else if a == -1 {
            -x
        } else if b == 1 {
            y
        } else if b == -1 {
            -y
        } else if c == 1 {
            z
        } else {
            -z
        }),
{
    assert(0 * x == 0 && 0 * y == 0 && 0 * z == 0);
    assert(1 * x == x && 1 * y == y && 1 * z == z);
    assert((-1) * x == -x && (-1) * y == -y && (-1) * z == -z);
}

/// A matrix that moves the axes onto one another moves no point further
/// from 0.
pub proof fn lemma_turn_near(m: Seq<int>, p: (int, int, int), b: int)
    requires
        axial(m),
        near(p, b),
    ensures
        near(turn(m, p), b),
{
    lemma_unit_times(m[0], m[1], m[2], p.0, p.1, p.2);
    lemma_unit_times(m[3], m[4], m[5], p.0, p.1, p.2);
    lemma_unit_times(m[6], m[7], m[8], p.0, p.1, p.2);
}

/// Two matrices that move the axes onto one another do so one after the
/// other.
pub proof fn lemma_compose_axial(a: Seq<int>, b: Seq<int>)
    requires
        axial(a),
        axial(b),
    ensures
        axial(compose(a, b)),
{
    let c = compose(a, b);
    lemma_unit_times(a[0], a[1], a[2], b[0], b[3], b[6]);
    lemma_unit_times(a[0], a[1], a[2], b[1], b[4], b[7]);
    lemma_unit_times(a[0], a[1], a[2], b[2], b[5], b[8]);
    lemma_unit_times(a[3], a[4], a[5], b[0], b[3], b[6]);
    lemma_unit_times(a[3], a[4], a[5], b[1], b[4], b[7]);
    lemma_unit_times(a[3], a[4], a[5], b[2], b[5], b[8]);
    lemma_unit_times(a[6], a[7], a[8], b[0], b[3], b[6]);
    lemma_unit_times(a[6], a[7], a[8], b[1], b[4], b[7]);
    lemma_unit_times(a[6], a[7], a[8], b[2], b[5], b[8]);
}

pub proof fn lemma_dot3(a: Seq<int>, b: Seq<int>, c: int, row: int, col: int)
    ensures
        dot(a, b, 3, c, row, col, 3) == a[row * 3 + 0] * b[0 * c + col] + a[row * 3 + 1] * b[1 * c
            + col] + a[row * 3 + 2] * b[2 * c + col],
{
    reveal_with_fuel(dot, 4);
}

pub proof fn lemma_axial_bounded(r: Rot)
    requires
        axial(mat(r)),
    ensures
        bounded(r.0.backing@, 1),
{
    let m = mat(r);
    assert forall|i: int| 0 <= i < 9 implies -1 <= #[trigger] r.0.backing@[i] <= 1 by {
        assert(m[i] == r.0.backing@[i]);
    }
}

/// Whether three products of a number of `a` and a number of `b`, added
/// up, stay within `i32`: the numbers of `a` lie within one bound, those
/// of `b` within another, and three times the product of the bounds does
/// not leave the range.
pub open spec fn products_fit(a: Seq<i32>, b: Seq<i32>) -> bool {
    exists|ba: int, bb: int|
        0 <= ba && 0 <= bb && #[trigger] bounded(a, ba) && #[trigger] bounded(b, bb) && 3 * (ba
            * bb) <= i32::MAX
}

/// A point within `b` of 0 can be turned by a matrix that moves the axes
/// onto one another.
pub proof fn lemma_turn_fits(rot: Rot, p: Vec3i, b: int)
    requires
        axial(mat(rot)),
        near(pt(p), b),
        3 * b <= i32::MAX,
    ensures
        products_fit(rot.0.backing@, p.0.backing@),
{
    lemma_axial_bounded(rot);
    assert(bounded(p.0.backing@, b)) by {
        assert forall|i: int| 0 <= i < 3 implies -b <= #[trigger] p.0.backing@[i] <= b by {
            if i == 0 {
            } else if i == 1 {
            } else {
            }
        }
    }
    assert(3 * (1 * b) <= i32::MAX);
}

/// Two matrices that move the axes onto one another can be multiplied.
pub proof fn lemma_turns_fit(a: Rot, b: Rot)
    requires
        axial(mat(a)),
        axial(mat(b)),
    ensures
        products_fit(a.0.backing@, b.0.backing@),
{
    lemma_axial_bounded(a);
    lemma_axial_bounded(b);
    assert(3 * (1 * 1) <= i32::MAX);
}

impl Vec3i {
    /// The point with the given coordinates.
    pub fn new(x: i32, y: i32, z: i32) -> (r: Vec3i)
        ensures
            pt(r) == (x as int, y as int, z as int),
    {
        Vec3i(Matrix { backing: [x, y, z] })
    }

    /// The point reached from this one by the step `rhs`.
    pub fn add(self, rhs: Vec3i) -> (r: Vec3i)
        requires
            near(plus(pt(self), pt(rhs)), i32::MAX as int),
        ensures
            pt(r) == plus(pt(self), pt(rhs)),
    {
        assert(self.0.backing[0] + rhs.0.backing[0] == plus(pt(self), pt(rhs)).0);
        assert(self.0.backing[1] + rhs.0.backing[1] == plus(pt(self), pt(rhs)).1);
        assert(self.0.backing[2] + rhs.0.backing[2] == plus(pt(self), pt(rhs)).2);
        Vec3i(self.0.add(rhs.0))
    }

    /// The step from `rhs` to this point.
    pub fn sub(self, rhs: Vec3i) -> (r: Vec3i)
        requires
            near(minus(pt(self), pt(rhs)), i32::MAX as int),
        ensures
            pt(r) == minus(pt(self), pt(rhs)),
    {
        assert(self.0.backing[0] - rhs.0.backing[0] == minus(pt(self), pt(rhs)).0);
        assert(self.0.backing[1] - rhs.0.backing[1] == minus(pt(self), pt(rhs)).1);
        assert(self.0.backing[2] - rhs.0.backing[2] == minus(pt(self), pt(rhs)).2);
        Vec3i(self.0.sub(rhs.0))
    }

    /// The point turned by `rot`.
    pub fn apply_rot(&self, rot: &Rot) -> (r: Vec3i)
        requires
            products_fit(rot.0.backing@, self.0.backing@),
        ensures
            pt(r) == turn(mat(*rot), pt(*self)),
    {
        proof {
            lemma_dot3(mat(*rot), ints(self.0.backing@), 1, 0, 0);
            lemma_dot3(mat(*rot), ints(self.0.backing@), 1, 1, 0);
            lemma_dot3(mat(*rot), ints(self.0.backing@), 1, 2, 0);
        }
        let m: Matrix<3> = matrix_multiply(&rot.0, &self.0, 3, 3, 1);
        proof {
            assert(m.backing[0int * 1 + 0] == dot(mat(*rot), ints(self.0.backing@), 3, 1, 0, 0, 3));
            assert(m.backing[1int * 1 + 0] == dot(mat(*rot), ints(self.0.backing@), 3, 1, 1, 0, 3));
            assert(m.backing[2int * 1 + 0] == dot(mat(*rot), ints(self.0.backing@), 3, 1, 2, 0, 3));
        }
        Vec3i(m)
    }

    /// The point turned and shifted by `rt`.
    pub fn apply_rt(&self, rt: &RotAndTrans) -> (r: Vec3i)
        requires
            products_fit(rt.rot.0.backing@, self.0.backing@),
            near(plus(turn(mat(rt.rot), pt(*self)), pt(rt.trans)), i32::MAX as int),
        ensures
            pt(r) == plus(turn(mat(rt.rot), pt(*self)), pt(rt.trans)),
    {
        self.apply_rot(&rt.rot).add(rt.trans)
    }

    /// The distance to `oth` along the axes.
    pub fn man_dist(&self, oth: &Vec3i) -> (r: i32)
        requires
            near(pt(*self), 0x1000_0000),
            near(pt(*oth), 0x1000_0000),
        ensures
            r == abs(pt(*self).0 - pt(*oth).0) + abs(pt(*self).1 - pt(*oth).1) + abs(
                pt(*self).2 - pt(*oth).2,
            ),
    {
        let mut acc: i32 = 0;
        let mut i: usize = 0;
        while i < 3
            invariant
                i <= 3,
                near(pt(*self), 0x1000_0000),
                near(pt(*oth), 0x1000_0000),
                acc == (if i >= 1 {
                    abs(pt(*self).0 - pt(*oth).0)
                } else {
                    0
                }) + (if i >= 2 {
                    abs(pt(*self).1 - pt(*oth).1)
                } else {
                    0
                }) + (if i >= 3 {
                    abs(pt(*self).2 - pt(*oth).2)
                } else {
                    0
                }),
            decreases 3 - i,
        {
            let d: i32 = self.0.backing[i] - oth.0.backing[i];
            acc = acc + (if d < 0 {
                -d
            } else {
                d
            });
            i = i + 1;
        }
        acc
    }
}

impl Rot {
    /// The turn with the given matrix, row by row.
    pub fn new(m: [i32; 9]) -> (r: Rot)
        ensures
            r.0.backing == m,
    {
        Rot(Matrix { backing: m })
    }

    /// The product of two turns: `rhs` first, then `self`.
    pub fn mul(self, rhs: Rot) -> (r: Rot)
        requires
            products_fit(self.0.backing@, rhs.0.backing@),
        ensures
            mat(r) == compose(mat(self), mat(rhs)),
            axial(mat(self)) && axial(mat(rhs)) ==> axial(mat(r)),
    {
        proof {
            if axial(mat(self)) && axial(mat(rhs)) {
                lemma_compose_axial(mat(self), mat(rhs));
            }
            lemma_dot3(mat(self), mat(rhs), 3, 0, 0);
            lemma_dot3(mat(self), mat(rhs), 3, 0, 1);
            lemma_dot3(mat(self), mat(rhs), 3, 0, 2);
            lemma_dot3(mat(self), mat(rhs), 3, 1, 0);
            lemma_dot3(mat(self), mat(rhs), 3, 1, 1);
            lemma_dot3(mat(self), mat(rhs), 3, 1, 2);
            lemma_dot3(mat(self), mat(rhs), 3, 2, 0);
            lemma_dot3(mat(self), mat(rhs), 3, 2, 1);
            lemma_dot3(mat(self), mat(rhs), 3, 2, 2);
        }
        let m: Matrix<9> = matrix_multiply(&self.0, &rhs.0, 3, 3, 3);
        proof {
            let a = mat(self);
            let b = mat(rhs);
            assert(m.backing[0int * 3 + 0] == dot(a, b, 3, 3, 0, 0, 3));
            assert(m.backing[0int * 3 + 1] == dot(a, b, 3, 3, 0, 1, 3));
            assert(m.backing[0int * 3 + 2] == dot(a, b, 3, 3, 0, 2, 3));
            assert(m.backing[1int * 3 + 0] == dot(a, b, 3, 3, 1, 0, 3));
            assert(m.backing[1int * 3 + 1] == dot(a, b, 3, 3, 1, 1, 3));
            assert(m.backing[1int * 3 + 2] == dot(a, b, 3, 3, 1, 2, 3));
            assert(m.backing[2int * 3 + 0] == dot(a, b, 3, 3, 2, 0, 3));
            assert(m.backing[2int * 3 + 1] == dot(a, b, 3, 3, 2, 1, 3));
            assert(m.backing[2int * 3 + 2] == dot(a, b, 3, 3, 2, 2, 3));
            assert(ints(m.backing@) =~= compose(a, b));
        }
        Rot(m)
    }

    /// The turn that takes back this one: its transpose.
    pub fn inverse(&self) -> (r: Rot)
        ensures
            forall|row: int, col: int|
                0 <= row < 3 && 0 <= col < 3 ==> #[trigger] mat(r)[col * 3 + row] == mat(*self)[row
                    * 3 + col],
            axial(mat(*self)) ==> axial(mat(r)),
            forall|b: int| bounded(self.0.backing@, b) ==> bounded(r.0.backing@, b),
    {
        let t = self.0.transpose(3);
        let r = Rot(t);
        proof {
            assert forall|b: int| bounded(self.0.backing@, b) implies bounded(r.0.backing@, b) by {
                assert forall|i: int| 0 <= i < 9 implies -b <= #[trigger] t.backing@[i] <= b by {
                    let col = i / 3;
                    let row = i % 3;
                    assert(t.backing[col * 3 + row] == self.0.backing[row * 3 + col]);
                }
            }
            assert forall|row: int, col: int| 0 <= row < 3 && 0 <= col < 3 implies #[trigger] mat(
                r,
            )[col * 3 + row] == mat(*self)[row * 3 + col] by {
                assert(t.backing[col * 3 + row] == self.0.backing[row * 3 + col]);
            }
            let a = mat(*self);
            let b = mat(r);
            assert(b[0int * 3 + 0] == a[0int * 3 + 0] && b[1int * 3 + 0] == a[0int * 3 + 1] && b[2int * 3 + 0]
                == a[0int * 3 + 2]);
            assert(b[0int * 3 + 1] == a[1int * 3 + 0] && b[1int * 3 + 1] == a[1int * 3 + 1] && b[2int * 3 + 1]
                == a[1int * 3 + 2]);
            assert(b[0int * 3 + 2] == a[2int * 3 + 0] && b[1int * 3 + 2] == a[2int * 3 + 1] && b[2int * 3 + 2]
                == a[2int * 3 + 2]);
        }
        r
    }
}

/// The turn that changes nothing.
pub open spec fn identity() -> Seq<int> {
    seq![1, 0, 0, 0, 1, 0, 0, 0, 1]
}

/// The turn that turns nothing.
pub fn empty_rotation() -> (r: Rot)
    ensures
        mat(r) == identity(),
        axial(mat(r)),
{
    let r = Rot::new([1, 0, 0, 0, 1, 0, 0, 0, 1]);
    assert(mat(r) =~= identity());
    r
}

/// The six turns that bring the first axis onto each axis and its
/// opposite.
pub open spec fn axis_turns() -> Seq<Seq<int>> {
    seq![
        seq![1, 0, 0, 0, 1, 0, 0, 0, 1],
        seq![0, -1, 0, 1, 0, 0, 0, 0, 1],
        seq![-1, 0, 0, 0, -1, 0, 0, 0, 1],
        seq![0, 1, 0, -1, 0, 0, 0, 0, 1],
        seq![0, 0, -1, 0, 1, 0, 1, 0, 0],
        seq![0, 0, 1, 0, 1, 0, -1, 0, 0],
    ]
}

/// The matrix with its second and third row negated.
pub open spec fn flipped(m: Seq<int>) -> Seq<int> {
    seq![m[0], m[1], m[2], -m[3], -m[4], -m[5], -m[6], -m[7], -m[8]]
}

/// The matrix with the negated third row as second row and the second row
/// as third.
pub open spec fn quarter(m: Seq<int>) -> Seq<int> {
    seq![m[0], m[1], m[2], -m[6], -m[7], -m[8], m[3], m[4], m[5]]
}

/// The `idx`-th of the 24 turns that move the axes onto one another: the
/// first axis goes to one of six places, and there are four turns about
/// it.
pub open spec fn rotation_spec(idx: int) -> Seq<int> {
    let base = axis_turns()[idx / 4];
    let half = if (idx / 2) % 2 == 1 {
        flipped(base)
    } else {
        base
    };
    if idx % 2 == 1 {
        quarter(half)
    } else {
        half
    }
}

/// Each of the 24 turns moves the axes onto one another.
pub proof fn lemma_rotations_axial(idx: int)
    requires
        0 <= idx < 24,
    ensures
        axial(rotation_spec(idx)),
{
    let t = axis_turns();
    assert(axial(t[0]) && axial(t[1]) && axial(t[2]) && axial(t[3]) && axial(t[4]) && axial(t[5]));
    let base = t[idx / 4];
    assert(axial(base));
    assert(axial(flipped(base)));
    let half = if (idx / 2) % 2 == 1 {
        flipped(base)
    } else {
        base
    };
    assert(axial(quarter(half)));
}

/// The 24 turns that move the axes onto one another.
pub fn generate_all_rotations() -> (ret: [Rot; 24])
    ensures
        forall|i: int| 0 <= i < 24 ==> mat(#[trigger] ret[i]) == rotation_spec(i),
        forall|i: int| 0 <= i < 24 ==> axial(mat(#[trigger] ret[i])),
{
    let mut ret: [Rot; 24] = vstd::array::array_fill_for_copy_types(
        Rot(Matrix { backing: [0, 0, 0, 0, 0, 0, 0, 0, 0] }),
    );
    let bases: [[i32; 9]; 6] = [
        [1, 0, 0, 0, 1, 0, 0, 0, 1],
        [0, -1, 0, 1, 0, 0, 0, 0, 1],
        [-1, 0, 0, 0, -1, 0, 0, 0, 1],
        [0, 1, 0, -1, 0, 0, 0, 0, 1],
        [0, 0, -1, 0, 1, 0, 1, 0, 0],
        [0, 0, 1, 0, 1, 0, -1, 0, 0],
    ];
    proof {
        assert(ints(bases[0]@) =~= axis_turns()[0]);
        assert(ints(bases[1]@) =~= axis_turns()[1]);
        assert(ints(bases[2]@) =~= axis_turns()[2]);
        assert(ints(bases[3]@) =~= axis_turns()[3]);
        assert(ints(bases[4]@) =~= axis_turns()[4]);
        assert(ints(bases[5]@) =~= axis_turns()[5]);
    }
    let mut idx: usize = 0;
    while idx < 24
        invariant
            idx <= 24,
            forall|k: int| 0 <= k < 6 ==> ints(#[trigger] bases[k]@) == axis_turns()[k],
            forall|k: int| 0 <= k < idx ==> mat(#[trigger] ret[k]) == rotation_spec(k),
        decreases 24 - idx,
    {
        let b = bases[idx / 4];
        assert(ints(bases[(idx / 4) as int]@) == axis_turns()[(idx / 4) as int]);
        let ghost bi = ints(b@);
        assert(bi[0] == b[0] && bi[1] == b[1] && bi[2] == b[2] && bi[3] == b[3] && bi[4] == b[4]
            && bi[5] == b[5] && bi[6] == b[6] && bi[7] == b[7] && bi[8] == b[8]);
        assert(-1 <= bi[0] <= 1 && -1 <= bi[1] <= 1 && -1 <= bi[2] <= 1 && -1 <= bi[3] <= 1 && -1
            <= bi[4] <= 1 && -1 <= bi[5] <= 1 && -1 <= bi[6] <= 1 && -1 <= bi[7] <= 1 && -1
            <= bi[8] <= 1) by {
            lemma_rotations_axial(0);
            let t = axis_turns();
            assert(axial(t[0]) && axial(t[1]) && axial(t[2]) && axial(t[3]) && axial(t[4])
                && axial(t[5]));
        }
        let h: [i32; 9] = if (idx / 2) % 2 == 1 {
            [b[0], b[1], b[2], -b[3], -b[4], -b[5], -b[6], -b[7], -b[8]]
        } else {
            b
        };
        let q: [i32; 9] = if idx % 2 == 1 {
            [h[0], h[1], h[2], -h[6], -h[7], -h[8], h[3], h[4], h[5]]
        } else {
            h
        };
        let r = Rot(Matrix { backing: q });
        proof {
            assert(mat(r) =~= rotation_spec(idx as int));
        }
        let ghost before = ret;
        ret[idx] = r;
        proof {
            assert forall|k: int| 0 <= k < idx + 1 implies mat(#[trigger] ret[k]) == rotation_spec(
                k,
            ) by {
                if k < idx {
                    assert(ret[k] == before[k]);
                }
            }
        }
        idx = idx + 1;
    }
    proof {
        assert forall|i: int| 0 <= i < 24 implies axial(mat(#[trigger] ret[i])) by {
            lemma_rotations_axial(i);
        }
    }
    ret
}

impl RotAndTrans {
    /// The turn that takes back this one, with the shift turned by it.
    pub fn invert(&self) -> (r: RotAndTrans)
        requires
            products_fit(self.rot.0.backing@, self.trans.0.backing@),
        ensures
            axial(mat(self.rot)) ==> axial(mat(r.rot)),
            pt(r.trans) == turn(mat(r.rot), pt(self.trans)),
            forall|row: int, col: int|
                0 <= row < 3 && 0 <= col < 3 ==> #[trigger] mat(r.rot)[col * 3 + row] == mat(
                    self.rot,
                )[row * 3 + col],
    {
        let rot = self.rot.inverse();
        let trans = self.trans.apply_rot(&rot);
        RotAndTrans { rot, trans }
    }
}

/// The turn and shift that do `first`, then `second`.
pub fn combine_rt(first: &RotAndTrans, second: &RotAndTrans) -> (r: RotAndTrans)
    requires
        products_fit(second.rot.0.backing@, first.rot.0.backing@),
        products_fit(second.rot.0.backing@, first.trans.0.backing@),
        near(plus(turn(mat(second.rot), pt(first.trans)), pt(second.trans)), i32::MAX as int),
    ensures
        mat(r.rot) == compose(mat(second.rot), mat(first.rot)),
        axial(mat(first.rot)) && axial(mat(second.rot)) ==> axial(mat(r.rot)),
        pt(r.trans) == plus(turn(mat(second.rot), pt(first.trans)), pt(second.trans)),
{
    RotAndTrans {
        rot: second.rot.mul(first.rot),
        trans: first.trans.apply_rot(&second.rot).add(second.trans),
    }
}

/// The beacons that a scanner reports, as the scanner sees them, and the
/// number of the scanner.
pub struct FreeChunk(pub Vec<Vec3i>, pub i32);

/// The beacons of a scanner whose place is known: the turn and shift
/// bring what the scanner sees into the common frame.
pub struct PlacedChunk(pub Vec<Vec3i>, pub RotAndTrans, pub i32);

/// The points of `plug`, each shifted by `d`.
pub open spec fn shifted(plug: Seq<(int, int, int)>, d: (int, int, int)) -> Seq<(int, int, int)> {
    plug.map_values(|v: (int, int, int)| plus(v, d))
}

/// The points of `plug`, each turned by `m`.
pub open spec fn turned(plug: Seq<(int, int, int)>, m: Seq<int>) -> Seq<(int, int, int)> {
    plug.map_values(|v: (int, int, int)| turn(m, v))
}

/// The points among the first `k` of `items` that `socket` does not hold,
/// each once.
pub open spec fn extra(socket: Seq<(int, int, int)>, items: Seq<(int, int, int)>, k: int) -> Seq<
    (int, int, int),
>
    decreases k,
{
    if k <= 0 {
        seq![]
    } else {
        let rest = extra(socket, items, k - 1);
        if socket.contains(items[k - 1]) || rest.contains(items[k - 1]) {
            rest
        } else {
            rest.push(items[k - 1])
        }
    }
}

/// Whether `plug`, shifted by `d`, meets `socket` well: together they
/// hold at least 12 points fewer than apart.
pub open spec fn good(socket: Seq<(int, int, int)>, plug: Seq<(int, int, int)>, d: (
    int,
    int,
    int,
)) -> bool {
    extra(socket, shifted(plug, d), plug.len() as int).len() + 12 <= plug.len()
}

/// The first shift, from the pair of the `i`-th point of `socket` and the
/// `j`-th of `plug` on, that brings a point of `plug` onto a point of
/// `socket` and makes the two meet well.
pub open spec fn first_good(
    socket: Seq<(int, int, int)>,
    plug: Seq<(int, int, int)>,
    i: int,
    j: int,
) -> Option<(int, int, int)>
    decreases socket.len() - i, plug.len() - j,
{
    if i < 0 || j < 0 || i >= socket.len() {
        None
    } else if j >= plug.len() {
        first_good(socket, plug, i + 1, 0)
    } else if good(socket, plug, minus(socket[i], plug[j])) {
        Some(minus(socket[i], plug[j]))
    } else {
        first_good(socket, plug, i, j + 1)
    }
}

/// Whether every point of the list lies within `b` of 0.
pub open spec fn all_near(s: Seq<(int, int, int)>, b: int) -> bool {
    forall|i: int| 0 <= i < s.len() ==> near(#[trigger] s[i], b)
}

fn same_point(a: &Vec3i, b: &Vec3i) -> (r: bool)
    ensures
        r == (pt(*a) == pt(*b)),
{
    a.0.backing[0] == b.0.backing[0] && a.0.backing[1] == b.0.backing[1] && a.0.backing[2]
        == b.0.backing[2]
}

fn has_point(ls: &Vec<Vec3i>, p: &Vec3i) -> (r: bool)
    ensures
        r == pts(ls@).contains(pt(*p)),
{
    let mut i: usize = 0;
    while i < ls.len()
        invariant
            i <= ls.len(),
            forall|k: int| 0 <= k < i ==> pts(ls@)[k] != pt(*p),
        decreases ls.len() - i,
    {
        if same_point(&ls[i], p) {
            assert(pts(ls@)[i as int] == pt(*p));
            return true;
        }
        i = i + 1;
    }
    false
}

fn meets(socket: &Vec<Vec3i>, plug: &Vec<Vec3i>, d: Vec3i) -> (r: bool)
    requires
        all_near(pts(socket@), 0x0400_0000),
        all_near(pts(plug@), 0x0400_0000),
        near(pt(d), 0x0800_0000),
    ensures
        r == good(pts(socket@), pts(plug@), pt(d)),
{
    let ghost items = shifted(pts(plug@), pt(d));
    let mut fresh: Vec<Vec3i> = Vec::new();
    let mut k: usize = 0;
    assert(pts(fresh@) =~= extra(pts(socket@), items, 0));
    while k < plug.len()
        invariant
            k <= plug.len(),
            all_near(pts(plug@), 0x0400_0000),
            near(pt(d), 0x0800_0000),
            items == shifted(pts(plug@), pt(d)),
            pts(fresh@) == extra(pts(socket@), items, k as int),
            fresh.len() <= k,
        decreases plug.len() - k,
    {
        assert(near(pts(plug@)[k as int], 0x0400_0000));
        let w = plug[k].add(d);
        assert(pt(w) == items[k as int]);
        let ghost before = pts(fresh@);
        if !has_point(socket, &w) && !has_point(&fresh, &w) {
            fresh.push(w);
            assert(pts(fresh@) =~= before.push(pt(w)));
        }
        k = k + 1;
    }
    assert(pts(fresh@).len() == fresh.len());
    assert(pts(plug@).len() == plug.len());
    plug.len() >= 12 && fresh.len() <= plug.len() - 12
}

/// Looks for a shift that brings `plug` onto `socket` so that at least 12
/// points meet.
pub fn try_find_trans(socket: &Vec<Vec3i>, plug: &Vec<Vec3i>) -> (r: Option<Vec3i>)
    requires
        all_near(pts(socket@), 0x0400_0000),
        all_near(pts(plug@), 0x0400_0000),
    ensures
        (match r {
            Some(d) => Some(pt(d)),
            None => None,
        }) == first_good(pts(socket@), pts(plug@), 0, 0),
        r matches Some(d) ==> near(pt(d), 0x0800_0000),
        r matches Some(d) ==> exists|i: int, j: int|
            0 <= i < socket.len() && 0 <= j < plug.len() && pt(d) == minus(
                #[trigger] pts(socket@)[i],
                #[trigger] pts(plug@)[j],
            ),
{
    let mut i: usize = 0;
    assert(pts(socket@).len() == socket.len());
    assert(pts(plug@).len() == plug.len());
    while i < socket.len()
        invariant
            i <= socket.len(),
            all_near(pts(socket@), 0x0400_0000),
            all_near(pts(plug@), 0x0400_0000),
            pts(socket@).len() == socket.len(),
            pts(plug@).len() == plug.len(),
            first_good(pts(socket@), pts(plug@), 0, 0) == first_good(
                pts(socket@),
                pts(plug@),
                i as int,
                0,
            ),
        decreases socket.len() - i,
    {
        let sock_vec = socket[i];
        let mut j: usize = 0;
        while j < plug.len()
            invariant
                j <= plug.len(),
                i < socket.len(),
                sock_vec == socket@[i as int],
                all_near(pts(socket@), 0x0400_0000),
                all_near(pts(plug@), 0x0400_0000),
                pts(socket@).len() == socket.len(),
                pts(plug@).len() == plug.len(),
                first_good(pts(socket@), pts(plug@), 0, 0) == first_good(
                    pts(socket@),
                    pts(plug@),
                    i as int,
                    j as int,
                ),
            decreases plug.len() - j,
        {
            assert(near(pts(socket@)[i as int], 0x0400_0000));
            assert(near(pts(plug@)[j as int], 0x0400_0000));
            let d = sock_vec.sub(plug[j]);
            if meets(socket, plug, d) {
                assert(pt(d) == minus(pts(socket@)[i as int], pts(plug@)[j as int]));
                return Some(d);
            }
            j = j + 1;
        }
        i = i + 1;
    }
    None
}

/// The first of the 24 turns, from the `k`-th on, under which `plug` can
/// be shifted onto `socket` so that at least 12 points meet, with the
/// shift.
pub open spec fn first_fit(socket: Seq<(int, int, int)>, plug: Seq<(int, int, int)>, k: int)
    -> Option<(int, (int, int, int))>
    decreases 24 - k,
{
    if k < 0 || k >= 24 {
        None
    } else {
        match first_good(socket, turned(plug, rotation_spec(k)), 0, 0) {
            Some(d) => Some((k, d)),
            None => first_fit(socket, plug, k + 1),
        }
    }
}

/// Looks for a turn and a shift that bring `plug` onto `socket` so that at
/// least 12 points meet.
pub fn try_find_rt(socket: &Vec<Vec3i>, plug: &Vec<Vec3i>) -> (r: Option<RotAndTrans>)
    requires
        all_near(pts(socket@), 0x0400_0000),
        all_near(pts(plug@), 0x0400_0000),
    ensures
        match r {
            Some(rt) => first_fit(pts(socket@), pts(plug@), 0) matches Some(f) && mat(rt.rot)
                == rotation_spec(f.0) && pt(rt.trans) == f.1 && axial(mat(rt.rot)) && near(
                pt(rt.trans),
                0x0800_0000,
            ) && forall|b: int|
                all_near(pts(socket@), b) && all_near(pts(plug@), b) ==> near(
                    pt(rt.trans),
                    2 * b,
                ),
            None => first_fit(pts(socket@), pts(plug@), 0) is None,
        },
{
    let all = generate_all_rotations();
    let mut k: usize = 0;
    while k < 24
        invariant
            k <= 24,
            all_near(pts(socket@), 0x0400_0000),
            all_near(pts(plug@), 0x0400_0000),
            forall|i: int| 0 <= i < 24 ==> mat(#[trigger] all[i]) == rotation_spec(i),
            forall|i: int| 0 <= i < 24 ==> axial(mat(#[trigger] all[i])),
            first_fit(pts(socket@), pts(plug@), 0) == first_fit(pts(socket@), pts(plug@), k as int),
        decreases 24 - k,
    {
        let rot = all[k];
        assert(axial(mat(all[k as int])));
        let mut rot_plug: Vec<Vec3i> = Vec::new();
        let mut i: usize = 0;
        while i < plug.len()
            invariant
                i <= plug.len(),
                axial(mat(rot)),
                all_near(pts(plug@), 0x0400_0000),
                pts(rot_plug@) == turned(pts(plug@).subrange(0, i as int), mat(rot)),
                all_near(pts(rot_plug@), 0x0400_0000),
            decreases plug.len() - i,
        {
            assert(near(pts(plug@)[i as int], 0x0400_0000));
            proof {
                lemma_turn_fits(rot, plug@[i as int], 0x0400_0000);
            }
            let v = plug[i].apply_rot(&rot);
            let ghost before = pts(rot_plug@);
            proof {
                lemma_turn_near(mat(rot), pt(plug@[i as int]), 0x0400_0000);
            }
            rot_plug.push(v);
            proof {
                assert(pts(rot_plug@) =~= before.push(pt(v)));
                assert(pts(plug@).subrange(0, i + 1) =~= pts(plug@).subrange(0, i as int).push(
                    pt(plug@[i as int]),
                ));
                assert(pts(rot_plug@) =~= turned(pts(plug@).subrange(0, i + 1), mat(rot)));
                assert forall|q: int| 0 <= q < pts(rot_plug@).len() implies near(
                    #[trigger] pts(rot_plug@)[q],
                    0x0400_0000,
                ) by {
                    if q < before.len() {
                        assert(pts(rot_plug@)[q] == before[q]);
                    }
                }
            }
            i = i + 1;
        }
        assert(pts(plug@).subrange(0, i as int) =~= pts(plug@));
        match try_find_trans(socket, &rot_plug) {
            Some(trans) => {
                proof {
                    assert forall|b: int|
                        all_near(pts(socket@), b) && all_near(pts(plug@), b) implies near(
                        pt(trans),
                        2 * b,
                    ) by {
                        let (i, j) = choose|i: int, j: int|
                            0 <= i < socket.len() && 0 <= j < rot_plug.len() && pt(trans) == minus(
                                #[trigger] pts(socket@)[i],
                                #[trigger] pts(rot_plug@)[j],
                            );
                        assert(near(pts(socket@)[i], b));
                        assert(near(pts(plug@)[j], b));
                        lemma_turn_near(mat(rot), pts(plug@)[j], b);
                        assert(pts(rot_plug@)[j] == turn(mat(rot), pts(plug@)[j]));
                    }
                }
                return Some(RotAndTrans { rot, trans });
            },
            None => {},
        }
        k = k + 1;
    }
    None
}

/// A placed chunk as mathematics: its points, its turn, its shift and its
/// number.
pub struct Placed {
    pub points: Seq<(int, int, int)>,
    pub rot: Seq<int>,
    pub trans: (int, int, int),
    pub id: int,
}

/// A free chunk as mathematics: its points and its number.
pub struct Free {
    pub points: Seq<(int, int, int)>,
    pub id: int,
}

impl View for FreeChunk {
    type V = Free;

    open spec fn view(&self) -> Free {
        Free { points: pts(self.0@), id: self.1 as int }
    }
}

impl View for PlacedChunk {
    type V = Placed;

    open spec fn view(&self) -> Placed {
        Placed {
            points: pts(self.0@),
            rot: mat(self.1.rot),
            trans: pt(self.1.trans),
            id: self.2 as int,
        }
    }
}

/// The chunk `c` placed beside `base`, if the two meet well under some
/// turn and shift: its place is that turn and shift followed by the place
/// of `base`.
pub open spec fn placed_by(c: Free, base: Placed) -> Option<Placed> {
    match first_fit(base.points, c.points, 0) {
        Some(f) => Some(
            Placed {
                points: c.points,
                rot: compose(base.rot, rotation_spec(f.0)),
                trans: plus(turn(base.rot, f.1), base.trans),
                id: c.id,
            },
        ),
        None => None,
    }
}

/// Whether a placed chunk can be worked with: its own points lie near 0,
/// its turn moves the axes onto one another, its shift is within `t`.
pub open spec fn sound(p: Placed, t: int) -> bool {
    all_near(p.points, 0x0400_0000) && axial(p.rot) && near(p.trans, t)
}

impl FreeChunk {
    /// A chunk of points with its number.
    pub fn new(hs: Vec<Vec3i>, id: i32) -> (r: FreeChunk)
        ensures
            r.0 == hs,
            r.1 == id,
    {
        FreeChunk(hs, id)
    }

    /// A chunk without points, with the number -1.
    pub fn blank() -> (r: FreeChunk)
        ensures
            r@ == (Free { points: seq![], id: -1 }),
    {
        let r = FreeChunk(Vec::new(), -1);
        assert(r@.points =~= seq![]);
        r
    }

    /// The chunk placed where it is, unturned.
    pub fn place_origin(self) -> (r: PlacedChunk)
        ensures
            r@ == (Placed { points: self@.points, rot: identity(), trans: (0, 0, 0), id: self@.id }),
    {
        self.with_rt(RotAndTrans { rot: empty_rotation(), trans: Vec3i::new(0, 0, 0) })
    }

    /// The chunk, placed by the given turn and shift.
    pub fn with_rt(self, rt: RotAndTrans) -> (r: PlacedChunk)
        ensures
            r@ == (Placed {
                points: self@.points,
                rot: mat(rt.rot),
                trans: pt(rt.trans),
                id: self@.id,
            }),
    {
        PlacedChunk(self.0, rt, self.1)
    }

    /// The chunk placed by `rt` relative to the placed chunk `pc`.
    pub fn with_rt_from(self, pc: &PlacedChunk, rt: &RotAndTrans) -> (r: PlacedChunk)
        requires
            products_fit(pc.1.rot.0.backing@, rt.rot.0.backing@),
            products_fit(pc.1.rot.0.backing@, rt.trans.0.backing@),
            near(plus(turn(pc@.rot, pt(rt.trans)), pc@.trans), i32::MAX as int),
        ensures
            r@ == (Placed {
                points: self@.points,
                rot: compose(pc@.rot, mat(rt.rot)),
                trans: plus(turn(pc@.rot, pt(rt.trans)), pc@.trans),
                id: self@.id,
            }),
            axial(mat(rt.rot)) && axial(pc@.rot) ==> axial(r@.rot),
    {
        self.with_rt(combine_rt(rt, &pc.1))
    }

    /// Places the chunk beside `base` if the two meet well; else hands
    /// it back.
    pub fn attempt_place_by(self, base: &PlacedChunk) -> (r: Result<PlacedChunk, FreeChunk>)
        requires
            all_near(self@.points, 0x0400_0000),
            sound(base@, 0x4000_0000),
        ensures
            match r {
                Ok(p) => placed_by(self@, base@) == Some(p@) && axial(p@.rot) && forall|b: int|
                    all_near(self@.points, b) && all_near(base@.points, b) ==> near(
                        minus(p@.trans, base@.trans),
                        2 * b,
                    ),
                Err(c) => placed_by(self@, base@) is None && c@ == self@,
            },
    {
        match try_find_rt(&base.0, &self.0) {
            Some(rt) => {
                proof {
                    assert forall|b: int|
                        all_near(self@.points, b) && all_near(base@.points, b) implies near(
                        turn(base@.rot, pt(rt.trans)),
                        2 * b,
                    ) by {
                        lemma_turn_near(base@.rot, pt(rt.trans), 2 * b);
                    }
                }
                proof {
                    lemma_turns_fit(base.1.rot, rt.rot);
                    lemma_turn_fits(base.1.rot, rt.trans, 0x1000_0000);
                    lemma_turn_near(base@.rot, pt(rt.trans), 0x1000_0000);
                }
                Ok(self.with_rt_from(base, &rt))
            },
            None => Err(self),
        }
    }
}

/// Takes the item at `pos` out of the list and hands it to `f`; if `f`
/// hands it back, it is put in its place again.
pub fn try_remove<A, B, F: FnOnce(A) -> Result<B, A>>(ls: &mut Vec<A>, pos: usize, blank: A, f: F)
    -> (r: Option<B>)
    requires
        pos < old(ls).len(),
        call_requires(f, (old(ls)[pos as int],)),
    ensures
        match r {
            Some(v) => call_ensures(f, (old(ls)[pos as int],), Ok(v)) && final(ls)@ == old(
                ls,
            )@.remove(pos as int),
            None => exists|e: A|
                call_ensures(f, (old(ls)[pos as int],), Err(e)) && final(ls)@ == old(ls)@.update(
                    pos as int,
                    e,
                ),
        },
{
    ls.push(blank);
    let item = ls.swap_remove(pos);
    match f(item) {
        Ok(v) => {
            let _ = ls.remove(pos);
            assert(ls@ =~= old(ls)@.remove(pos as int));
            Some(v)
        },
        Err(back) => {
            ls.push(back);
            let _ = ls.swap_remove(pos);
            assert(ls@ =~= old(ls)@.update(pos as int, back));
            None
        },
    }
}

/// The views of a list of placed chunks.
pub open spec fn placed_views(s: Seq<PlacedChunk>) -> Seq<Placed> {
    s.map_values(|c: PlacedChunk| c@)
}

/// The views of a list of free chunks.
pub open spec fn free_views(s: Seq<FreeChunk>) -> Seq<Free> {
    s.map_values(|c: FreeChunk| c@)
}

/// What is left to place and what waits to be used as a base after the
/// free chunks from the `i`-th on have been tried beside `pc`: a chunk
/// that fits leaves the free ones and waits as a base.
pub open spec fn sweep(pc: Placed, todo: Seq<Placed>, data: Seq<Free>, i: int) -> (
    Seq<Placed>,
    Seq<Free>,
)
    decreases data.len() - i,
{
    if i < 0 || i >= data.len() {
        (todo, data)
    } else {
        match placed_by(data[i], pc) {
            Some(p) => sweep(pc, todo.push(p), data.remove(i), i),
            None => sweep(pc, todo, data, i + 1),
        }
    }
}

pub proof fn lemma_sweep(pc: Placed, todo: Seq<Placed>, data: Seq<Free>, i: int)
    requires
        0 <= i,
    ensures
        sweep(pc, todo, data, i).1.len() <= data.len(),
        sweep(pc, todo, data, i).1.len() == data.len() ==> sweep(pc, todo, data, i).0 == todo,
        sweep(pc, todo, data, i).0.len() + sweep(pc, todo, data, i).1.len() == todo.len()
            + data.len(),
    decreases data.len() - i,
{
    if i < data.len() {
        match placed_by(data[i], pc) {
            Some(p) => {
                lemma_sweep(pc, todo.push(p), data.remove(i), i);
            },
            None => {
                lemma_sweep(pc, todo, data, i + 1);
            },
        }
    }
}

/// The chunks in their places once every free chunk has been placed
/// beside a placed one; `None` when no base is left while free chunks
/// are. The base that waits last is used first.
pub open spec fn settle(todo: Seq<Placed>, data: Seq<Free>, done: Seq<Placed>) -> Option<Seq<Placed>>
    decreases data.len(), todo.len(),
{
    if data.len() == 0 {
        Some(done + todo)
    } else if todo.len() == 0 {
        None
    } else {
        let pc = todo.last();
        let next = sweep(pc, todo.drop_last(), data, 0);
        proof {
            lemma_sweep(pc, todo.drop_last(), data, 0);
        }
        settle(next.0, next.1, done.push(pc))
    }
}

/// The points of a placed chunk in the common frame.
pub open spec fn world(p: Placed) -> Seq<(int, int, int)> {
    p.points.map_values(|v: (int, int, int)| plus(turn(p.rot, v), p.trans))
}

/// The points of the first `k` chunks in the common frame, each once.
pub open spec fn merged(scanners: Seq<Placed>, k: int) -> Seq<(int, int, int)>
    decreases k,
{
    if k <= 0 {
        seq![]
    } else {
        let rest = merged(scanners, k - 1);
        let here = world(scanners[k - 1]);
        rest + extra(rest, here, here.len() as int)
    }
}

pub open spec fn dist(a: (int, int, int), b: (int, int, int)) -> int {
    abs(a.0 - b.0) + abs(a.1 - b.1) + abs(a.2 - b.2)
}

pub open spec fn larger(a: int, b: int) -> int {
    if b > a {
        b
    } else {
        a
    }
}

/// The greatest distance from scanner `i` to one of the scanners from
/// `i + 1` up to `j`, or `so_far` if that is more.
pub open spec fn spread_row(scanners: Seq<Placed>, i: int, j: int, so_far: int) -> int
    decreases j - i,
{
    if j <= i + 1 {
        so_far
    } else {
        larger(
            spread_row(scanners, i, j - 1, so_far),
            dist(scanners[i].trans, scanners[j - 1].trans),
        )
    }
}

/// The greatest distance between two of the scanners, of which the first
/// is among the first `i`.
pub open spec fn spread(scanners: Seq<Placed>, i: int) -> int
    decreases i,
{
    if i <= 0 {
        0
    } else {
        spread_row(scanners, i - 1, scanners.len() as int, spread(scanners, i - 1))
    }
}

/// The points that `socket` does not hold are kept each once: a point
/// is kept just when it stands among the items and not in `socket`.
pub proof fn lemma_extra(socket: Seq<(int, int, int)>, items: Seq<(int, int, int)>, k: int)
    requires
        0 <= k <= items.len(),
    ensures
        extra(socket, items, k).no_duplicates(),
        forall|p: (int, int, int)| #[trigger]
            extra(socket, items, k).contains(p) <==> !socket.contains(p) && exists|j: int|
                0 <= j < k && items[j] == p,
    decreases k,
{
    if k > 0 {
        lemma_extra(socket, items, k - 1);
        let rest = extra(socket, items, k - 1);
        let all = extra(socket, items, k);
        let x = items[k - 1];
        assert forall|p: (int, int, int)| #[trigger]
            all.contains(p) <==> !socket.contains(p) && exists|j: int|
                0 <= j < k && items[j] == p by {
            if rest.contains(p) {
                let i = choose|i: int| 0 <= i < rest.len() && rest[i] == p;
                assert(all[i] == p);
                let j = choose|j: int| 0 <= j < k - 1 && items[j] == p;
                assert(0 <= j < k && items[j] == p);
            }
            if all.contains(p) {
                let i = choose|i: int| 0 <= i < all.len() && all[i] == p;
                if i < rest.len() {
                    assert(rest[i] == p);
                } else {
                    assert(p == x);
                    assert(items[k - 1] == p);
                }
            }
            if !socket.contains(p) && exists|j: int| 0 <= j < k && items[j] == p {
                let j = choose|j: int| 0 <= j < k && items[j] == p;
                if j < k - 1 {
                    assert(rest.contains(p));
                } else if !rest.contains(p) {
                    assert(all[rest.len() as int] == p);
                }
            }
        }
        assert forall|i: int, j: int|
            0 <= i < all.len() && 0 <= j < all.len() && i != j implies all[i] != all[j] by {
            if i < rest.len() && j < rest.len() {
            } else if i < rest.len() {
                assert(rest.contains(rest[i]));
            } else if j < rest.len() {
                assert(rest.contains(rest[j]));
            }
        }
    }
}

/// The points gathered from the first `k` chunks are the points that one
/// of them has in the common frame, each once.
pub proof fn lemma_merged(scanners: Seq<Placed>, k: int)
    requires
        0 <= k <= scanners.len(),
    ensures
        merged(scanners, k).no_duplicates(),
        forall|p: (int, int, int)| #[trigger]
            merged(scanners, k).contains(p) <==> exists|i: int, j: int|
                0 <= i < k && 0 <= j < world(scanners[i]).len() && #[trigger] world(
                    scanners[i],
                )[j] == p,
    decreases k,
{
    if k > 0 {
        lemma_merged(scanners, k - 1);
        let rest = merged(scanners, k - 1);
        let here = world(scanners[k - 1]);
        let more = extra(rest, here, here.len() as int);
        let all = merged(scanners, k);
        lemma_extra(rest, here, here.len() as int);
        assert(all == rest + more);
        assert forall|p: (int, int, int)| #[trigger]
            all.contains(p) <==> exists|i: int, j: int|
                0 <= i < k && 0 <= j < world(scanners[i]).len() && #[trigger] world(
                    scanners[i],
                )[j] == p by {
            if rest.contains(p) {
                let a = choose|a: int| 0 <= a < rest.len() && rest[a] == p;
                assert(all[a] == p);
                let (i, j) = choose|i: int, j: int|
                    0 <= i < k - 1 && 0 <= j < world(scanners[i]).len() && #[trigger] world(
                        scanners[i],
                    )[j] == p;
                assert(0 <= i < k && world(scanners[i])[j] == p);
            }
            if more.contains(p) {
                let a = choose|a: int| 0 <= a < more.len() && more[a] == p;
                assert(all[rest.len() + a] == p);
                let j = choose|j: int| 0 <= j < here.len() && here[j] == p;
                assert(world(scanners[k - 1])[j] == p);
            }
            if all.contains(p) {
                let a = choose|a: int| 0 <= a < all.len() && all[a] == p;
                if a < rest.len() {
                    assert(rest[a] == p);
                } else {
                    assert(more[a - rest.len()] == p);
                }
            }
            if exists|i: int, j: int|
                0 <= i < k && 0 <= j < world(scanners[i]).len() && #[trigger] world(
                    scanners[i],
                )[j] == p {
                let (i, j) = choose|i: int, j: int|
                    0 <= i < k && 0 <= j < world(scanners[i]).len() && #[trigger] world(
                        scanners[i],
                    )[j] == p;
                if i < k - 1 {
                    assert(rest.contains(p));
                } else if !rest.contains(p) {
                    assert(here[j] == p);
                    assert(more.contains(p));
                }
            }
        }
        assert forall|a: int, b: int|
            0 <= a < all.len() && 0 <= b < all.len() && a != b implies all[a] != all[b] by {
            if a < rest.len() && b < rest.len() {
            } else if a >= rest.len() && b >= rest.len() {
                assert(more[a - rest.len()] != more[b - rest.len()]);
            } else if a < rest.len() {
                assert(more.contains(more[b - rest.len()]));
                assert(rest.contains(rest[a]));
            } else {
                assert(more.contains(more[a - rest.len()]));
                assert(rest.contains(rest[b]));
            }
        }
    }
}

/// The greatest distance found in a row is no less than what was found
/// before and than every distance of the row, and it is one of them.
pub proof fn lemma_spread_row(scanners: Seq<Placed>, i: int, j: int, so_far: int)
    requires
        0 <= i,
        j <= scanners.len(),
    ensures
        spread_row(scanners, i, j, so_far) >= so_far,
        forall|b: int|
            i < b < j ==> dist(scanners[i].trans, (#[trigger] scanners[b]).trans) <= spread_row(
                scanners,
                i,
                j,
                so_far,
            ),
        spread_row(scanners, i, j, so_far) == so_far || exists|b: int|
            i < b < j && dist(scanners[i].trans, (#[trigger] scanners[b]).trans) == spread_row(
                scanners,
                i,
                j,
                so_far,
            ),
    decreases j - i,
{
    if j > i + 1 {
        lemma_spread_row(scanners, i, j - 1, so_far);
        let before = spread_row(scanners, i, j - 1, so_far);
        let d = dist(scanners[i].trans, scanners[j - 1].trans);
        if !(before == so_far) && before >= d {
            let b = choose|b: int|
                i < b < j - 1 && dist(scanners[i].trans, (#[trigger] scanners[b]).trans) == before;
            assert(i < b < j);
        }
        if d > before {
            assert(dist(scanners[i].trans, scanners[j - 1].trans) == d);
        }
    }
}

/// The spread is the greatest distance between two of the scanners, 0
/// where there are fewer than two.
pub proof fn lemma_spread(scanners: Seq<Placed>, i: int)
    requires
        0 <= i <= scanners.len(),
    ensures
        spread(scanners, i) >= 0,
        forall|a: int, b: int|
            0 <= a < i && a < b < scanners.len() ==> dist(
                (#[trigger] scanners[a]).trans,
                (#[trigger] scanners[b]).trans,
            ) <= spread(scanners, i),
        spread(scanners, i) == 0 || exists|a: int, b: int|
            0 <= a < i && a < b < scanners.len() && dist(
                (#[trigger] scanners[a]).trans,
                (#[trigger] scanners[b]).trans,
            ) == spread(scanners, i),
    decreases i,
{
    if i > 0 {
        lemma_spread(scanners, i - 1);
        let before = spread(scanners, i - 1);
        let n = scanners.len() as int;
        lemma_spread_row(scanners, i - 1, n, before);
        let now = spread(scanners, i);
        assert forall|a: int, b: int| 0 <= a < i && a < b < scanners.len() implies dist(
            (#[trigger] scanners[a]).trans,
            (#[trigger] scanners[b]).trans,
        ) <= now by {
            if a < i - 1 {
                assert(dist(scanners[a].trans, scanners[b].trans) <= before);
            }
        }
        if now != 0 {
            if now == before {
                let (a, b) = choose|a: int, b: int|
                    0 <= a < i - 1 && a < b < scanners.len() && dist(
                        (#[trigger] scanners[a]).trans,
                        (#[trigger] scanners[b]).trans,
                    ) == before;
                assert(0 <= a < i && a < b < scanners.len());
            } else {
                let b = choose|b: int|
                    i - 1 < b < n && dist(scanners[i - 1].trans, (#[trigger] scanners[b]).trans)
                        == now;
                assert(0 <= i - 1 < i && i - 1 < b < scanners.len() && dist(
                    scanners[i - 1].trans,
                    scanners[b].trans,
                ) == now);
            }
        }
    }
}

/// Gathers the points of the placed chunks in the common frame, each
/// once.
pub fn combine_placed_chunks(chunks: &Vec<PlacedChunk>) -> (r: Vec<Vec3i>)
    requires
        forall|i: int| 0 <= i < chunks.len() ==> sound((#[trigger] chunks[i])@, 0x1000_0000),
    ensures
        pts(r@) == merged(placed_views(chunks@), chunks.len() as int),
        pts(r@).no_duplicates(),
        forall|p: (int, int, int)| #[trigger]
            pts(r@).contains(p) <==> exists|i: int, j: int|
                0 <= i < chunks.len() && 0 <= j < world(placed_views(chunks@)[i]).len()
                    && #[trigger] world(placed_views(chunks@)[i])[j] == p,
{
    let ghost views = placed_views(chunks@);
    proof {
        lemma_merged(views, chunks.len() as int);
    }
    let mut out: Vec<Vec3i> = Vec::new();
    let mut k: usize = 0;
    assert(pts(out@) =~= merged(views, 0));
    while k < chunks.len()
        invariant
            k <= chunks.len(),
            views == placed_views(chunks@),
            forall|i: int| 0 <= i < chunks.len() ==> sound((#[trigger] chunks[i])@, 0x1000_0000),
            pts(out@) == merged(views, k as int),
        decreases chunks.len() - k,
    {
        let p = &chunks[k];
        assert(sound(chunks[k as int]@, 0x1000_0000));
        assert(views[k as int] == p@);
        let ghost rest = pts(out@);
        let ghost here = world(p@);
        let mut fresh: Vec<Vec3i> = Vec::new();
        assert(pts(fresh@) =~= extra(rest, here, 0));
        let mut i: usize = 0;
        while i < p.0.len()
            invariant
                i <= p.0.len(),
                sound(p@, 0x1000_0000),
                rest == pts(out@),
                here == world(p@),
                pts(fresh@) == extra(rest, here, i as int),
            decreases p.0.len() - i,
        {
            assert(near(pts(p.0@)[i as int], 0x0400_0000));
            proof {
                lemma_turn_fits(p.1.rot, p.0@[i as int], 0x0400_0000);
                lemma_turn_near(mat(p.1.rot), pt(p.0@[i as int]), 0x0400_0000);
            }
            let w = p.0[i].apply_rt(&p.1);
            assert(pt(w) == here[i as int]);
            let ghost before = pts(fresh@);
            if !has_point(&out, &w) && !has_point(&fresh, &w) {
                fresh.push(w);
                assert(pts(fresh@) =~= before.push(pt(w)));
            }
            i = i + 1;
        }
        assert(here.len() == p.0.len());
        let ghost added = pts(fresh@);
        out.append(&mut fresh);
        assert(pts(out@) =~= rest + added);
        k = k + 1;
    }
    out
}

fn copy_chunk(c: &FreeChunk) -> (r: FreeChunk)
    ensures
        r@ == c@,
{
    let mut points: Vec<Vec3i> = Vec::new();
    let mut i: usize = 0;
    while i < c.0.len()
        invariant
            i <= c.0.len(),
            points@ == c.0@.subrange(0, i as int),
        decreases c.0.len() - i,
    {
        points.push(c.0[i]);
        i = i + 1;
        assert(points@ =~= c.0@.subrange(0, i as int));
    }
    assert(c.0@.subrange(0, i as int) =~= c.0@);
    FreeChunk(points, c.1)
}

/// Whether the chunks can be placed without leaving the range of the
/// numbers: the points of every chunk lie within `b` of its scanner, and
/// `b` is small enough for the number of chunks.
pub open spec fn workable(data: Seq<Free>, b: int) -> bool {
    0 <= b <= 0x0400_0000 && 2 * b * data.len() <= 0x1000_0000 && forall|i: int|
        0 <= i < data.len() ==> all_near((#[trigger] data[i]).points, b)
}

/// Places every scanner relative to the first, and returns the number of
/// beacons seen by any and the greatest distance between two scanners.
/// `None` when some scanner cannot be placed.
pub fn p1(data: &Vec<FreeChunk>) -> (r: Option<(usize, i32)>)
    requires
        data.len() >= 1,
        exists|b: int| workable(free_views(data@), b),
    ensures
        match settle(
            seq![
                Placed {
                    points: data[0]@.points,
                    rot: identity(),
                    trans: (0, 0, 0),
                    id: data[0]@.id,
                },
            ],
            free_views(data@).subrange(1, data.len() as int),
            seq![],
        ) {
            Some(scanners) => r == Some(
                (
                    merged(scanners, scanners.len() as int).len() as usize,
                    spread(scanners, scanners.len() as int) as i32,
                ),
            ),
            None => r is None,
        },
{
    let ghost b = choose|b: int| workable(free_views(data@), b);
    let ghost n = data.len() as int;
    let ghost all = free_views(data@);
    assert(all[0] == data@[0]@);
    assert(all_near(all[0].points, b));
    let mut complete_todo: Vec<PlacedChunk> = Vec::new();
    complete_todo.push(copy_chunk(&data[0]).place_origin());
    let mut rest: Vec<FreeChunk> = Vec::new();
    let mut i: usize = 1;
    while i < data.len()
        invariant
            1 <= i <= data.len(),
            all == free_views(data@),
            free_views(rest@) == all.subrange(1, i as int),
        decreases data.len() - i,
    {
        let ghost before = free_views(rest@);
        rest.push(copy_chunk(&data[i]));
        assert(free_views(rest@) =~= before.push(data@[i as int]@));
        assert(all[i as int] == data@[i as int]@);
        i = i + 1;
        assert(all.subrange(1, i as int) =~= before.push(all[i - 1]));
    }
    let mut complete_done: Vec<PlacedChunk> = Vec::new();
    let ghost start_todo = placed_views(complete_todo@);
    let ghost start_data = free_views(rest@);
    proof {
        assert(start_todo =~= seq![
            Placed {
                points: data[0]@.points,
                rot: identity(),
                trans: (0, 0, 0),
                id: data[0]@.id,
            },
        ]);
        assert(placed_views(complete_done@) =~= seq![]);
        assert forall|k: int| 0 <= k < rest.len() implies all_near(
            (#[trigger] free_views(rest@)[k]).points,
            b,
        ) by {
            assert(free_views(rest@)[k] == all[k + 1]);
        }
        assert(2 * b * 1 <= 2 * b * n) by (nonlinear_arith)
            requires
                1 <= n,
                0 <= b,
        ;
    }
    proof {
        assert(start_data == free_views(data@).subrange(1, data.len() as int));
    }
    loop
        invariant
            n == data.len(),
            start_todo == seq![
                Placed {
                    points: data[0]@.points,
                    rot: identity(),
                    trans: (0, 0, 0),
                    id: data[0]@.id,
                },
            ],
            start_data == free_views(data@).subrange(1, data.len() as int),
            0 <= b <= 0x0400_0000,
            2 * b * n <= 0x1000_0000,
            complete_todo.len() + complete_done.len() + rest.len() == n,
            forall|k: int|
                0 <= k < rest.len() ==> all_near((#[trigger] free_views(rest@)[k]).points, b),
            forall|k: int|
                0 <= k < complete_todo.len() ==> sound(
                    #[trigger] placed_views(complete_todo@)[k],
                    2 * b * (complete_todo.len() + complete_done.len()),
                ) && all_near(placed_views(complete_todo@)[k].points, b),
            forall|k: int|
                0 <= k < complete_done.len() ==> sound(
                    #[trigger] placed_views(complete_done@)[k],
                    2 * b * (complete_todo.len() + complete_done.len()),
                ) && all_near(placed_views(complete_done@)[k].points, b),
            settle(start_todo, start_data, seq![]) == settle(
                placed_views(complete_todo@),
                free_views(rest@),
                placed_views(complete_done@),
            ),
        ensures
            rest.len() == 0,
            n == data.len(),
            0 <= b <= 0x0400_0000,
            2 * b * n <= 0x1000_0000,
            complete_todo.len() + complete_done.len() == n,
            forall|k: int|
                0 <= k < complete_todo.len() ==> sound(
                    #[trigger] placed_views(complete_todo@)[k],
                    2 * b * n,
                ),
            forall|k: int|
                0 <= k < complete_done.len() ==> sound(
                    #[trigger] placed_views(complete_done@)[k],
                    2 * b * n,
                ),
            settle(start_todo, start_data, seq![]) == Some(
                placed_views(complete_done@) + placed_views(complete_todo@),
            ),
        decreases rest.len(), complete_todo.len(),
    {
        if rest.len() == 0 {
            break ;
        }
        let ghost todo0 = placed_views(complete_todo@);
        let ghost data0 = free_views(rest@);
        let ghost done0 = placed_views(complete_done@);
        let pc = match complete_todo.pop() {
            Some(pc) => pc,
            None => {
                return None;
            },
        };
        proof {
            assert(placed_views(complete_todo@) =~= todo0.drop_last());
            assert(pc@ == todo0.last());
            assert(sound(todo0[todo0.len() - 1], 2 * b * (todo0.len() + done0.len())));
            lemma_sweep(pc@, todo0.drop_last(), data0, 0);
            assert(2 * b * (todo0.len() + done0.len()) <= 2 * b * n) by (nonlinear_arith)
                requires
                    todo0.len() + done0.len() <= n,
                    0 <= b,
            ;
        }
        let ghost count0 = todo0.len() + done0.len();
        let mut i: usize = 0;
        while i < rest.len()
            invariant
                i <= rest.len(),
                n == data.len(),
                0 <= b <= 0x0400_0000,
                2 * b * n <= 0x1000_0000,
                count0 >= 1,
                complete_todo.len() + 1 + complete_done.len() + rest.len() == n,
                complete_done.len() == done0.len(),
                complete_todo.len() + 1 + complete_done.len() >= count0,
                sound(pc@, 2 * b * count0),
                all_near(pc@.points, b),
                placed_views(complete_done@) == done0,
                forall|k: int|
                    0 <= k < rest.len() ==> all_near((#[trigger] free_views(rest@)[k]).points, b),
                forall|k: int|
                    0 <= k < complete_todo.len() ==> sound(
                        #[trigger] placed_views(complete_todo@)[k],
                        2 * b * (complete_todo.len() + 1 + complete_done.len()),
                    ) && all_near(placed_views(complete_todo@)[k].points, b),
                forall|k: int|
                    0 <= k < complete_done.len() ==> sound(
                        #[trigger] placed_views(complete_done@)[k],
                        2 * b * count0,
                    ) && all_near(placed_views(complete_done@)[k].points, b),
                sweep(pc@, todo0.drop_last(), data0, 0) == sweep(
                    pc@,
                    placed_views(complete_todo@),
                    free_views(rest@),
                    i as int,
                ),
            decreases rest.len() - i,
        {
            let ghost todo1 = placed_views(complete_todo@);
            let ghost data1 = free_views(rest@);
            let ghost item = rest@[i as int];
            let ghost rest_before = rest@;
            proof {
                assert(data1[i as int] == item@);
                assert(all_near(free_views(rest@)[i as int].points, b));
                assert(2 * b * count0 <= 2 * b * n) by (nonlinear_arith)
                    requires
                        count0 <= n,
                        0 <= b,
                ;
            }
            let placing = |v: FreeChunk| -> (res: Result<PlacedChunk, FreeChunk>)
                requires
                    all_near(v@.points, 0x0400_0000),
                    sound(pc@, 0x4000_0000),
                ensures
                    match res {
                        Ok(p) => placed_by(v@, pc@) == Some(p@) && axial(p@.rot) && forall|c: int|
                            all_near(v@.points, c) && all_near(pc@.points, c) ==> near(
                                minus(p@.trans, pc@.trans),
                                2 * c,
                            ),
                        Err(c) => placed_by(v@, pc@) is None && c@ == v@,
                    },
                { v.attempt_place_by(&pc) };
            match try_remove(&mut rest, i, FreeChunk::blank(), placing) {
                Some(new_p) => {
                    proof {
                        assert(placed_by(item@, pc@) == Some(new_p@));
                        assert(free_views(rest@) =~= data1.remove(i as int));
                        assert(near(minus(new_p@.trans, pc@.trans), 2 * b));
                        let count1 = todo1.len() + 1 + done0.len();
                        assert(2 * b * count0 + 2 * b <= 2 * b * (count1 + 1) && 2 * b * (count1
                            + 1) <= 2 * b * n && 2 * b * count1 <= 2 * b * (count1 + 1)
                            && 2 * b * count0 <= 2 * b * (count1 + 1)) by (nonlinear_arith)
                            requires
                                count0 <= count1,
                                count1 + 1 <= n,
                                0 <= b,
                        ;
                        assert(new_p@.points == item@.points);
                        assert forall|k: int| 0 <= k < free_views(rest@).len() implies all_near(
                            (#[trigger] free_views(rest@)[k]).points,
                            b,
                        ) by {
                            if k < i {
                                assert(free_views(rest@)[k] == data1[k]);
                            } else {
                                assert(free_views(rest@)[k] == data1[k + 1]);
                            }
                        }
                    }
                    let ghost shown = new_p@;
                    complete_todo.push(new_p);
                    proof {
                        assert(placed_views(complete_todo@) =~= todo1.push(shown));
                        assert forall|k: int| 0 <= k < complete_todo.len() implies sound(
                            #[trigger] placed_views(complete_todo@)[k],
                            2 * b * (complete_todo.len() + 1 + complete_done.len()),
                        ) && all_near(placed_views(complete_todo@)[k].points, b) by {
                            if k < todo1.len() {
                                assert(placed_views(complete_todo@)[k] == todo1[k]);
                            }
                        }
                    }
                },
                None => {
                    proof {
                        let e = choose|e: FreeChunk|
                            call_ensures(placing, (item,), Err(e)) && rest@ == rest_before.update(
                                i as int,
                                e,
                            );
                        assert(free_views(rest@) =~= data1) by {
                            assert forall|k: int| 0 <= k < rest.len() implies free_views(rest@)[k]
                                == data1[k] by {}
                        }
                    }
                    i += 1
                },
            }
        }
        let ghost pcv = pc@;
        complete_done.push(pc);
        proof {
            assert(placed_views(complete_done@) =~= done0.push(pcv));
            let total = complete_todo.len() + complete_done.len();
            assert(2 * b * count0 <= 2 * b * total) by (nonlinear_arith)
                requires
                    count0 <= total,
                    0 <= b,
            ;
            assert forall|k: int| 0 <= k < complete_done.len() implies sound(
                #[trigger] placed_views(complete_done@)[k],
                2 * b * total,
            ) && all_near(placed_views(complete_done@)[k].points, b) by {
                if k < done0.len() {
                    assert(placed_views(complete_done@)[k] == done0[k]);
                }
            }
        }
    }
    let ghost done_views = placed_views(complete_done@);
    let ghost todo_views = placed_views(complete_todo@);
    complete_done.append(&mut complete_todo);
    let scanners = complete_done;
    proof {
        assert(placed_views(scanners@) =~= done_views + todo_views);
        assert forall|k: int| 0 <= k < scanners.len() implies sound(
            (#[trigger] scanners[k])@,
            0x1000_0000,
        ) by {
            assert(placed_views(scanners@)[k] == scanners[k]@);
            if k < done_views.len() {
                assert(placed_views(scanners@)[k] == done_views[k]);
            } else {
                assert(placed_views(scanners@)[k] == todo_views[k - done_views.len()]);
            }
        }
    }
    let beacons = combine_placed_chunks(&scanners);
    assert(pts(beacons@).len() == beacons.len());
    let ghost views = placed_views(scanners@);
    let mut max: i32 = 0;
    let mut i: usize = 0;
    while i < scanners.len()
        invariant
            i <= scanners.len(),
            views == placed_views(scanners@),
            forall|k: int| 0 <= k < scanners.len() ==> sound((#[trigger] scanners[k])@, 0x1000_0000),
            max == spread(views, i as int),
            0 <= max,
        decreases scanners.len() - i,
    {
        assert(sound(scanners[i as int]@, 0x1000_0000));
        assert(views[i as int] == scanners[i as int]@);
        let i_pos = scanners[i].1.trans;
        let mut j: usize = i + 1;
        let ghost so_far = max as int;
        while j < scanners.len()
            invariant
                i < j <= scanners.len(),
                views == placed_views(scanners@),
                forall|k: int|
                    0 <= k < scanners.len() ==> sound((#[trigger] scanners[k])@, 0x1000_0000),
                pt(i_pos) == views[i as int].trans,
                near(pt(i_pos), 0x1000_0000),
                max == spread_row(views, i as int, j as int, so_far),
                0 <= max,
            decreases scanners.len() - j,
        {
            assert(sound(scanners[j as int]@, 0x1000_0000));
            assert(views[j as int] == scanners[j as int]@);
            let j_pos = scanners[j].1.trans;
            let v = i_pos.man_dist(&j_pos);
            if v > max {
                max = v;
            }
            j = j + 1;
        }
        i = i + 1;
    }
    Some((beacons.len(), max))
}

/// The point that a line of the form `x,y,z` gives; white space at its
/// end is dropped.
pub open spec fn coords_of(line: Seq<char>) -> Option<(i32, i32, i32)> {
    match text::split_once_spec(text::trim_end_spec(line), ',') {
        Some((a, bc)) => match text::split_once_spec(bc, ',') {
            Some((b, c)) => match (text::i32_of(a), text::i32_of(b), text::i32_of(c)) {
                (Some(x), Some(y), Some(z)) => Some((x, y, z)),
                _ => None,
            },
            None => None,
        },
        None => None,
    }
}

/// Reads the three coordinates of a point, separated by commas.
pub fn line_as_coords(s: &Vec<char>) -> (r: Option<(i32, i32, i32)>)
    ensures
        r == coords_of(s@),
{
    let s = text::trim_end(s);
    let (a, bc) = match text::split_once(&s, ',') {
        Some(v) => v,
        None => {
            return None;
        },
    };
    let (b, c) = match text::split_once(&bc, ',') {
        Some(v) => v,
        None => {
            return None;
        },
    };
    match (text::parse_i32(&a), text::parse_i32(&b), text::parse_i32(&c)) {
        (Some(x), Some(y), Some(z)) => Some((x, y, z)),
        _ => None,
    }
}

/// What has been read: the chunks that are complete, and the points of
/// the chunk that is being read, if one is.
pub struct Reading {
    pub chunks: Seq<Free>,
    pub open: Option<Seq<(int, int, int)>>,
}

/// The list with the point `p` in it once.
pub open spec fn with_point(points: Seq<(int, int, int)>, p: (int, int, int)) -> Seq<
    (int, int, int),
> {
    if points.contains(p) {
        points
    } else {
        points.push(p)
    }
}

/// What the first `k` lines give: a line with a point adds to the chunk
/// that is being read; any other line ends it. The chunks are numbered
/// from 0 in their order.
pub open spec fn reading_after(lines: Seq<Seq<char>>, k: int) -> Reading
    decreases k,
{
    if k <= 0 {
        Reading { chunks: seq![], open: None }
    } else {
        let before = reading_after(lines, k - 1);
        match coords_of(lines[k - 1]) {
            Some(c) => Reading {
                chunks: before.chunks,
                open: Some(
                    with_point(
                        match before.open {
                            Some(points) => points,
                            None => seq![],
                        },
                        (c.0 as int, c.1 as int, c.2 as int),
                    ),
                ),
            },
            None => match before.open {
                Some(points) => Reading {
                    chunks: before.chunks.push(Free { points, id: before.chunks.len() as int }),
                    open: None,
                },
                None => before,
            },
        }
    }
}

/// The chunks that the lines give.
pub open spec fn chunks_of(lines: Seq<Seq<char>>) -> Seq<Free> {
    let end = reading_after(lines, lines.len() as int);
    match end.open {
        Some(points) => end.chunks.push(Free { points, id: end.chunks.len() as int }),
        None => end.chunks,
    }
}

pub proof fn lemma_reading_len(lines: Seq<Seq<char>>, k: int)
    ensures
        reading_after(lines, k).chunks.len() <= (if k > 0 {
            k
        } else {
            0
        }),
    decreases k,
{
    if k > 0 {
        lemma_reading_len(lines, k - 1);
    }
}

/// Reads the reports of the scanners.
pub fn read_data(lines: &Vec<Vec<char>>) -> (r: Vec<FreeChunk>)
    requires
        lines.len() < 0x7fff_ffff,
    ensures
        free_views(r@) == chunks_of(text::views(lines@)),
{
    let ghost all = text::views(lines@);
    let mut ret: Vec<FreeChunk> = Vec::new();
    let mut cur: Option<Vec<Vec3i>> = None;
    let mut id: i32 = 0;
    let mut i: usize = 0;
    assert(free_views(ret@) =~= seq![]);
    while i < lines.len()
        invariant
            i <= lines.len(),
            lines.len() < 0x7fff_ffff,
            all == text::views(lines@),
            free_views(ret@) == reading_after(all, i as int).chunks,
            (match cur {
                Some(v) => Some(pts(v@)),
                None => None,
            }) == reading_after(all, i as int).open,
            id == ret.len(),
            ret.len() <= i,
        decreases lines.len() - i,
    {
        assert(all[i as int] == lines@[i as int]@);
        let ghost done = free_views(ret@);
        match line_as_coords(&lines[i]) {
            Some(c) => {
                let p = Vec3i::new(c.0, c.1, c.2);
                let mut points = match cur {
                    Some(v) => v,
                    None => {
                        let v: Vec<Vec3i> = Vec::new();
                        assert(pts(v@) =~= seq![]);
                        v
                    },
                };
                let ghost before = pts(points@);
                if !has_point(&points, &p) {
                    points.push(p);
                    assert(pts(points@) =~= before.push(pt(p)));
                }
                cur = Some(points);
            },
            None => {
                match cur {
                    Some(v) => {
                        let chunk = FreeChunk::new(v, id);
                        let ghost shown = chunk@;
                        ret.push(chunk);
                        assert(free_views(ret@) =~= done.push(shown));
                        id += 1;
                    },
                    None => {},
                }
                cur = None;
            },
        }
        i = i + 1;
    }
    let ghost done = free_views(ret@);
    match cur {
        Some(v) => {
            let chunk = FreeChunk::new(v, id);
            let ghost shown = chunk@;
            ret.push(chunk);
            assert(free_views(ret@) =~= done.push(shown));
        },
        None => {},
    }
    ret
}

} // verus!
