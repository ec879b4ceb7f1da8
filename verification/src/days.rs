use crate::lanternfish::{after_days, dot, identity, lemma_index, one_day, power, product};
use vstd::prelude::*;

verus! {

/// The numbers of fish with each timer one day later: every timer falls
/// by one; the fish at 0 go to 6, and as many new fish begin at 8.
pub open spec fn next_day(v: Seq<int>) -> Seq<int> {
    seq![v[1], v[2], v[3], v[4], v[5], v[6], v[7] + v[0], v[8], v[0]]
}

/// The numbers of fish with each timer `t` days later.
pub open spec fn days_later(v: Seq<int>, t: nat) -> Seq<int>
    decreases t,
{
    if t == 0 {
        v
    } else {
        next_day(days_later(v, (t - 1) as nat))
    }
}

/// The sum over the first `j` rows of `b` and the first `k` of its
/// columns of the products of three: an entry of row `row` of `a`, an
/// entry of `b`, an entry of column `col` of `v`, which has `c` columns.
pub open spec fn triple(
    a: Seq<int>,
    b: Seq<int>,
    v: Seq<int>,
    n: int,
    c: int,
    row: int,
    col: int,
    j: int,
    k: int,
) -> int
    decreases j,
{
    if j <= 0 {
        0
    } else {
        triple(a, b, v, n, c, row, col, j - 1, k) + a[row * n + (j - 1)] * dot(
            b,
            v,
            n,
            c,
            j - 1,
            col,
            k,
        )
    }
}

/// A sum of products with one more column.
pub proof fn lemma_triple_step(
    a: Seq<int>,
    b: Seq<int>,
    v: Seq<int>,
    n: int,
    c: int,
    row: int,
    col: int,
    j: int,
    k: int,
)
    requires
        0 <= j,
        0 < k,
    ensures
        triple(a, b, v, n, c, row, col, j, k) == triple(a, b, v, n, c, row, col, j, k - 1) + dot(
            a,
            b,
            n,
            n,
            row,
            k - 1,
            j,
        ) * v[(k - 1) * c + col],
    decreases j,
{
    if j > 0 {
        lemma_triple_step(a, b, v, n, c, row, col, j - 1, k);
        let x = a[row * n + (j - 1)];
        let y = b[(j - 1) * n + (k - 1)];
        let z = v[(k - 1) * c + col];
        let d = dot(b, v, n, c, j - 1, col, k - 1);
        let e = dot(a, b, n, n, row, k - 1, j - 1);
        assert(x * (d + y * z) == x * d + (x * y) * z) by (nonlinear_arith);
        assert((e + x * y) * z == e * z + (x * y) * z) by (nonlinear_arith);
    }
}

pub proof fn lemma_triple_none(
    a: Seq<int>,
    b: Seq<int>,
    v: Seq<int>,
    n: int,
    c: int,
    row: int,
    col: int,
    j: int,
)
    ensures
        triple(a, b, v, n, c, row, col, j, 0) == 0,
    decreases j,
{
    if j > 0 {
        lemma_triple_none(a, b, v, n, c, row, col, j - 1);
    }
}

/// Summing by columns first gives the sum by rows first.
pub proof fn lemma_triple_columns(
    a: Seq<int>,
    b: Seq<int>,
    v: Seq<int>,
    n: int,
    c: int,
    row: int,
    col: int,
    k: int,
)
    requires
        0 <= row < n,
        0 <= k <= n,
        a.len() == n * n,
        b.len() == n * n,
    ensures
        dot(product(a, b, n, n, n), v, n, c, row, col, k) == triple(a, b, v, n, c, row, col, n, k),
    decreases k,
{
    if k <= 0 {
        lemma_triple_none(a, b, v, n, c, row, col, n);
    } else {
        lemma_triple_columns(a, b, v, n, c, row, col, k - 1);
        lemma_triple_step(a, b, v, n, c, row, col, n, k);
        lemma_index(n, n, row, k - 1);
        assert(product(a, b, n, n, n)[row * n + (k - 1)] == dot(a, b, n, n, row, k - 1, n));
    }
}

/// Summing by rows gives the product with what `b` makes of `v`.
pub proof fn lemma_triple_rows(
    a: Seq<int>,
    b: Seq<int>,
    v: Seq<int>,
    n: int,
    c: int,
    row: int,
    col: int,
    j: int,
)
    requires
        0 <= row < n,
        0 <= col < c,
        0 <= j <= n,
    ensures
        dot(a, product(b, v, n, n, c), n, c, row, col, j) == triple(a, b, v, n, c, row, col, j, n),
    decreases j,
{
    if j > 0 {
        lemma_triple_rows(a, b, v, n, c, row, col, j - 1);
        lemma_index(n, c, j - 1, col);
        assert(product(b, v, n, n, c)[(j - 1) * c + col] == dot(b, v, n, c, j - 1, col, n));
    }
}

/// The row and the column of a place of a matrix of `n` rows and `c`
/// columns.
pub proof fn lemma_place(n: int, c: int, i: int)
    requires
        0 < c,
        0 <= i < n * c,
    ensures
        0 <= i / c < n,
        0 <= i % c < c,
        (i / c) * c + i % c == i,
{
    assert(0 <= i / c < n && 0 <= i % c < c && (i / c) * c + i % c == i) by (nonlinear_arith)
        requires
            0 < c,
            0 <= i < n * c,
    ;
}

/// The product of matrices does not depend on where the brackets
/// stand: the product of two matrices, taken of a third of `c` columns,
/// is the first matrix taken of what the second makes of the third.
pub proof fn lemma_product_of_product(a: Seq<int>, b: Seq<int>, v: Seq<int>, n: int, c: int)
    requires
        0 < n,
        0 < c,
        a.len() == n * n,
        b.len() == n * n,
    ensures
        product(product(a, b, n, n, n), v, n, n, c) == product(a, product(b, v, n, n, c), n, n, c),
{
    let left = product(product(a, b, n, n, n), v, n, n, c);
    let right = product(a, product(b, v, n, n, c), n, n, c);
    assert(left.len() == right.len());
    assert forall|i: int| 0 <= i < left.len() implies left[i] == right[i] by {
        lemma_place(n, c, i);
        lemma_triple_columns(a, b, v, n, c, i / c, i % c, n);
        lemma_triple_rows(a, b, v, n, c, i / c, i % c, n);
    }
    assert(left =~= right);
}

/// The sum of the first `k` products of a row with a column, where the
/// row holds 1 in the columns `c1` and `c2` and 0 elsewhere: the entries
/// of the column at `c1` and `c2`, as far as they are among the first
/// `k`. A column number below 0 stands for no column.
pub proof fn lemma_sparse_row(
    m: Seq<int>,
    v: Seq<int>,
    n: int,
    row: int,
    c1: int,
    c2: int,
    k: int,
)
    requires
        0 <= k <= n,
        c1 != c2,
        forall|j: int|
            0 <= j < n ==> #[trigger] m[row * n + j] == (if j == c1 || j == c2 {
                1int
            } else {
                0int
            }),
    ensures
        dot(m, v, n, 1, row, 0, k) == (if 0 <= c1 < k {
            v[c1]
        } else {
            0
        }) + (if 0 <= c2 < k {
            v[c2]
        } else {
            0
        }),
    decreases k,
{
    if k > 0 {
        lemma_sparse_row(m, v, n, row, c1, c2, k - 1);
        let e = m[row * n + (k - 1)];
        let x = v[(k - 1) * 1 + 0];
        assert(e * x == (if k - 1 == c1 || k - 1 == c2 {
            x
        } else {
            0
        })) by (nonlinear_arith)
            requires
                e == (if k - 1 == c1 || k - 1 == c2 {
                    1int
                } else {
                    0int
                }),
        ;
    }
}

/// The rows of the matrix of one day: each holds 1 in the column of the
/// next timer, the row of timer 6 also in the column of timer 0, and the
/// row of timer 8 in the column of timer 0.
pub proof fn lemma_one_day_rows(row: int)
    requires
        0 <= row < 9,
    ensures
        forall|j: int|
            0 <= j < 9 ==> #[trigger] one_day()[row * 9 + j] == (if j == (if row == 8 {
                0
            } else {
                row + 1
            }) || j == (if row == 6 {
                0int
            } else {
                -1int
            }) {
                1int
            } else {
                0int
            }),
{
    let m = one_day();
    assert forall|j: int| 0 <= j < 9 implies #[trigger] m[row * 9 + j] == (if j == (if row == 8 {
        0
    } else {
        row + 1
    }) || j == (if row == 6 {
        0int
    } else {
        -1int
    }) {
        1int
    } else {
        0int
    }) by {
        let i = row * 9 + j;
        assert(0 <= i < 81);
        if row == 0 {
            assert(m[0] == 0 && m[1] == 1 && m[2] == 0 && m[3] == 0 && m[4] == 0 && m[5] == 0
                && m[6] == 0 && m[7] == 0 && m[8] == 0);
        } else if row == 1 {
            assert(m[9] == 0 && m[10] == 0 && m[11] == 1 && m[12] == 0 && m[13] == 0 && m[14] == 0
                && m[15] == 0 && m[16] == 0 && m[17] == 0);
        } else if row == 2 {
            assert(m[18] == 0 && m[19] == 0 && m[20] == 0 && m[21] == 1 && m[22] == 0 && m[23]
                == 0 && m[24] == 0 && m[25] == 0 && m[26] == 0);
        } else if row == 3 {
            assert(m[27] == 0 && m[28] == 0 && m[29] == 0 && m[30] == 0 && m[31] == 1 && m[32]
                == 0 && m[33] == 0 && m[34] == 0 && m[35] == 0);
        } else if row == 4 {
            assert(m[36] == 0 && m[37] == 0 && m[38] == 0 && m[39] == 0 && m[40] == 0 && m[41]
                == 1 && m[42] == 0 && m[43] == 0 && m[44] == 0);
        } else if row == 5 {
            assert(m[45] == 0 && m[46] == 0 && m[47] == 0 && m[48] == 0 && m[49] == 0 && m[50]
                == 0 && m[51] == 1 && m[52] == 0 && m[53] == 0);
        } else if row == 6 {
            assert(m[54] == 1 && m[55] == 0 && m[56] == 0 && m[57] == 0 && m[58] == 0 && m[59]
                == 0 && m[60] == 0 && m[61] == 1 && m[62] == 0);
        } else if row == 7 {
            assert(m[63] == 0 && m[64] == 0 && m[65] == 0 && m[66] == 0 && m[67] == 0 && m[68]
                == 0 && m[69] == 0 && m[70] == 0 && m[71] == 1);
        } else {
            assert(m[72] == 1 && m[73] == 0 && m[74] == 0 && m[75] == 0 && m[76] == 0 && m[77]
                == 0 && m[78] == 0 && m[79] == 0 && m[80] == 0);
        }
    }
}

/// The matrix of one day makes of a column what one day makes of the
/// fish.
pub proof fn lemma_one_day(v: Seq<int>)
    requires
        v.len() == 9,
    ensures
        product(one_day(), v, 9, 9, 1) == next_day(v),
{
    let m = one_day();
    let out = product(m, v, 9, 9, 1);
    assert forall|i: int| 0 <= i < 9 implies out[i] == next_day(v)[i] by {
        assert(i / 1 == i && i % 1 == 0);
        assert(out[i] == dot(m, v, 9, 1, i, 0, 9));
        lemma_one_day_rows(i);
        let c1 = if i == 8 {
            0
        } else {
            i + 1
        };
        let c2 = if i == 6 {
            0int
        } else {
            -1int
        };
        lemma_sparse_row(m, v, 9, i, c1, c2, 9);
    }
    assert(out =~= next_day(v));
}


/// The sum of the first `k` products of a row of the identity matrix
/// with column `col` of a matrix of `c` columns picks the entry of the
/// row's number, once it is among them.
pub proof fn lemma_identity_row(m: Seq<int>, n: int, c: int, row: int, col: int, k: int)
    requires
        0 <= row < n,
        0 <= k <= n,
    ensures
        dot(identity(n), m, n, c, row, col, k) == (if row < k {
            m[row * c + col]
        } else {
            0
        }),
    decreases k,
{
    if k > 0 {
        lemma_identity_row(m, n, c, row, col, k - 1);
        lemma_index(n, n, row, k - 1);
        let e = identity(n)[row * n + (k - 1)];
        let x = m[(k - 1) * c + col];
        assert(e == (if row == k - 1 {
            1int
        } else {
            0int
        }));
        assert(e * x == (if row == k - 1 {
            x
        } else {
            0
        })) by (nonlinear_arith)
            requires
                e == (if row == k - 1 {
                    1int
                } else {
                    0int
                }),
        ;
    }
}

/// The sum of the first `k` products of a row with a column of the
/// identity matrix picks the entry of the column's number, once it is
/// among them.
pub proof fn lemma_identity_column(m: Seq<int>, n: int, row: int, col: int, k: int)
    requires
        0 <= col < n,
        0 <= k <= n,
    ensures
        dot(m, identity(n), n, n, row, col, k) == (if col < k {
            m[row * n + col]
        } else {
            0
        }),
    decreases k,
{
    if k > 0 {
        lemma_identity_column(m, n, row, col, k - 1);
        lemma_index(n, n, k - 1, col);
        let e = identity(n)[(k - 1) * n + col];
        let x = m[row * n + (k - 1)];
        assert(e == (if col == k - 1 {
            1int
        } else {
            0int
        }));
        assert(x * e == (if col == k - 1 {
            x
        } else {
            0
        })) by (nonlinear_arith)
            requires
                e == (if col == k - 1 {
                    1int
                } else {
                    0int
                }),
        ;
    }
}

/// The identity matrix times a matrix is that matrix, and so is the
/// matrix times the identity matrix.
pub proof fn lemma_identity_sides(m: Seq<int>, n: int)
    requires
        0 < n,
        m.len() == n * n,
    ensures
        product(identity(n), m, n, n, n) == m,
        product(m, identity(n), n, n, n) == m,
{
    let left = product(identity(n), m, n, n, n);
    let right = product(m, identity(n), n, n, n);
    assert forall|i: int| 0 <= i < n * n implies left[i] == m[i] && right[i] == m[i] by {
        lemma_place(n, n, i);
        lemma_identity_row(m, n, n, i / n, i % n, n);
        lemma_identity_column(m, n, i / n, i % n, n);
    }
    assert(left =~= m);
    assert(right =~= m);
}

/// The identity matrix makes of a column the column.
pub proof fn lemma_identity(v: Seq<int>, n: int)
    requires
        0 < n,
        v.len() == n,
    ensures
        product(identity(n), v, n, n, 1) == v,
{
    let out = product(identity(n), v, n, n, 1);
    assert forall|i: int| 0 <= i < n implies out[i] == v[i] by {
        assert(i / 1 == i && i % 1 == 0);
        lemma_identity_row(v, n, 1, i, 0, n);
    }
    assert(out =~= v);
}

/// The product of `e` matrices `m`, one after another.
pub open spec fn repeated(m: Seq<int>, n: int, e: nat) -> Seq<int>
    decreases e,
{
    if e == 0 {
        identity(n)
    } else {
        product(repeated(m, n, (e - 1) as nat), m, n, n, n)
    }
}

pub proof fn lemma_repeated_len(m: Seq<int>, n: int, e: nat)
    requires
        0 < n,
    ensures
        repeated(m, n, e).len() == n * n,
    decreases e,
{
    assert(n * n >= 0) by (nonlinear_arith)
        requires
            0 < n,
    ;
}

/// The product of `a` matrices `m` times the product of `b` of them is
/// the product of `a + b`.
pub proof fn lemma_repeated_add(m: Seq<int>, n: int, a: nat, b: nat)
    requires
        0 < n,
        m.len() == n * n,
    ensures
        product(repeated(m, n, a), repeated(m, n, b), n, n, n) == repeated(m, n, a + b),
    decreases b,
{
    lemma_repeated_len(m, n, a);
    if b == 0 {
        lemma_identity_sides(repeated(m, n, a), n);
    } else {
        let less = (b - 1) as nat;
        lemma_repeated_len(m, n, less);
        lemma_repeated_add(m, n, a, less);
        lemma_product_of_product(repeated(m, n, a), repeated(m, n, less), m, n, n);
        assert(a + b - 1 == a + less);
    }
}

/// The power worked out by squaring is the product of `e` matrices `m`.
pub proof fn lemma_power_repeated(m: Seq<int>, n: int, e: nat)
    requires
        0 < n,
        m.len() == n * n,
    ensures
        power(m, n, e) == repeated(m, n, e),
    decreases e,
{
    if e == 0 {
    } else if e == 1 {
        lemma_identity_sides(m, n);
        assert(repeated(m, n, 0) == identity(n));
    } else {
        let h = (e / 2) as nat;
        lemma_power_repeated(m, n, h);
        lemma_repeated_add(m, n, h, h);
        if e % 2 != 0 {
            assert(e - 1 == h + h);
        } else {
            assert(e == h + h);
        }
    }
}

/// The power for one more is the power times the matrix.
pub proof fn lemma_power_step(m: Seq<int>, n: int, e: nat)
    requires
        0 < n,
        m.len() == n * n,
    ensures
        power(m, n, e + 1) == product(power(m, n, e), m, n, n, n),
{
    lemma_power_repeated(m, n, e);
    lemma_power_repeated(m, n, e + 1);
}

pub proof fn lemma_days_len(v: Seq<int>, t: nat)
    requires
        v.len() == 9,
    ensures
        days_later(v, t).len() == 9,
    decreases t,
{
    if t > 0 {
        lemma_days_len(v, (t - 1) as nat);
    }
}

/// Days after days are days.
pub proof fn lemma_days_add(v: Seq<int>, a: nat, b: nat)
    ensures
        days_later(days_later(v, a), b) == days_later(v, a + b),
    decreases b,
{
    if b > 0 {
        lemma_days_add(v, a, (b - 1) as nat);
    }
}

pub proof fn lemma_power_len(m: Seq<int>, n: int, e: nat)
    requires
        0 < n,
        m.len() == n * n,
    ensures
        power(m, n, e).len() == n * n,
    decreases e,
{
    if e >= 2 {
        lemma_power_len(m, n, e / 2);
    }
}

/// The power of the matrix of one day makes of a column what as many
/// days make of the fish.
pub proof fn lemma_power_days(v: Seq<int>, e: nat)
    requires
        v.len() == 9,
    ensures
        product(power(one_day(), 9, e), v, 9, 9, 1) == days_later(v, e),
    decreases e,
{
    let m = one_day();
    assert(m.len() == 81);
    if e == 0 {
        lemma_identity(v, 9);
    } else if e == 1 {
        lemma_one_day(v);
        assert(days_later(v, 0) == v);
    } else {
        let h = (e / 2) as nat;
        let half = power(m, 9, h);
        let square = product(half, half, 9, 9, 9);
        lemma_power_len(m, 9, h);
        lemma_power_days(v, h);
        lemma_days_len(v, h);
        lemma_days_len(v, 1);
        if e % 2 != 0 {
            let w = next_day(v);
            assert(w == days_later(v, 1)) by {
                assert(days_later(v, 0) == v);
            }
            lemma_one_day(v);
            lemma_product_of_product(square, m, v, 9, 1);
            lemma_product_of_product(half, half, w, 9, 1);
            lemma_power_days(w, h);
            lemma_days_len(w, h);
            lemma_power_days(days_later(w, h), h);
            lemma_days_add(w, h, h);
            lemma_days_add(v, 1, h + h);
        } else {
            lemma_product_of_product(half, half, v, 9, 1);
            lemma_power_days(days_later(v, h), h);
            lemma_days_add(v, h, h);
        }
    }
}

/// The numbers of fish after `t` days are those that `t` times one day
/// make.
pub proof fn lemma_after_days(v: Seq<int>, t: nat)
    requires
        v.len() == 9,
    ensures
        after_days(v, t) == days_later(v, t),
{
    lemma_power_days(v, t);
}

} // verus!
