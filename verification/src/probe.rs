use crate::flight::{answers, lands, lemma_answer, lemma_hitting};
use crate::text;
use vstd::prelude::*;

verus! {

/// What `scan_fmt::parse::scan` extracts from `input` under `format`: one
/// text for each field of the format, as far as the input matches it.
pub uninterp spec fn scan_fields(input: Seq<char>, format: Seq<char>) -> Seq<Seq<char>>;

/// Calls `scan_fmt::parse::scan`, which walks `input` along `format` and
/// hands out the text found for each field. The result depends on the two
/// texts alone. Only the format of the target line is admitted: on that
/// one the walk ends for every input, while a format that breaks off
/// inside a field makes the outside function fail.
#[verifier::external_body]
fn scan(input: &Vec<char>, format: &str) -> (r: Vec<Vec<char>>)
    requires
        format@ == "target area: x={d}..{d}, y={d}..{d}"@,
    ensures
        text::views(r@) == scan_fields(input@, format@),
{
    let line: String = input.iter().collect();
    scan_fmt::parse::scan(&line, format).map(|s| s.chars().collect()).collect()
}

/// The target area that the fields of a line give: the first four, each
/// read as an `i32`.
pub open spec fn target_of(fields: Seq<Seq<char>>) -> Option<(i32, i32, i32, i32)> {
    if fields.len() < 4 {
        None
    } else {
        match (
            text::i32_of(fields[0]),
            text::i32_of(fields[1]),
            text::i32_of(fields[2]),
            text::i32_of(fields[3]),
        ) {
            (Some(a), Some(b), Some(c), Some(d)) => Some((a, b, c, d)),
            _ => None,
        }
    }
}

/// Reads the four bounds of the target area out of the fields of a line.
pub fn target_from_fields(fields: &Vec<Vec<char>>) -> (r: Option<(i32, i32, i32, i32)>)
    ensures
        r == target_of(text::views(fields@)),
{
    if fields.len() < 4 {
        return None;
    }
    assert(text::views(fields@)[0] == fields@[0]@);
    assert(text::views(fields@)[1] == fields@[1]@);
    assert(text::views(fields@)[2] == fields@[2]@);
    assert(text::views(fields@)[3] == fields@[3]@);
    match (
        text::parse_i32(&fields[0]),
        text::parse_i32(&fields[1]),
        text::parse_i32(&fields[2]),
        text::parse_i32(&fields[3]),
    ) {
        (Some(a), Some(b), Some(c), Some(d)) => Some((a, b, c, d)),
        _ => None,
    }
}

/// Reads a line of the form `target area: x=A..B, y=C..D`.
pub fn read_data(line: &Vec<char>) -> (r: Option<(i32, i32, i32, i32)>)
    ensures
        r == target_of(scan_fields(line@, "target area: x={d}..{d}, y={d}..{d}"@)),
{
    let fields = scan(line, "target area: x={d}..{d}, y={d}..{d}");
    target_from_fields(&fields)
}

pub open spec fn abs(v: int) -> int {
    if v < 0 {
        -v
    } else {
        v
    }
}

/// Whether `d` divides `v`.
pub open spec fn divides(d: int, v: int) -> bool {
    exists|q: int| #[trigger] (q * d) == v
}

pub proof fn lemma_divides_mod(d: int, v: int)
    requires
        d > 0,
    ensures
        divides(d, v) <==> v % d == 0,
{
    if v % d == 0 {
        assert((v / d) * d == v) by (nonlinear_arith)
            requires
                d > 0,
                v % d == 0,
        ;
    }
    if divides(d, v) {
        let q = choose|q: int| #[trigger] (q * d) == v;
        assert(v % d == 0) by (nonlinear_arith)
            requires
                q * d == v,
                d > 0,
        ;
    }
}

/// Whether `d` is a positive divisor of `v`.
pub open spec fn is_divisor(d: int, v: int) -> bool {
    1 <= d <= abs(v) && abs(v) % d == 0
}

/// The divisors of `v` from 1 to `d`, in rising order.
pub open spec fn divisors_upto(v: int, d: int) -> Seq<i32>
    decreases d,
{
    if d <= 0 {
        seq![]
    } else if v % d == 0 {
        divisors_upto(v, d - 1).push(d as i32)
    } else {
        divisors_upto(v, d - 1)
    }
}

/// The positive divisors of `v`, in rising order.
pub open spec fn divisors_of(v: int) -> Seq<i32> {
    divisors_upto(abs(v), abs(v))
}

/// The positive divisors of `v`, in rising order.
pub fn find_all_plus_divides(v: i32) -> (r: Vec<i32>)
    requires
        v > i32::MIN,
    ensures
        r@ == divisors_of(v as int),
        forall|i: int, j: int| 0 <= i < j < r.len() ==> r[i] < r[j],
        forall|d: i32| #[trigger] r@.contains(d) <==> is_divisor(d as int, v as int),
{
    let m: u32 = if v < 0 {
        (-v) as u32
    } else {
        v as u32
    };
    let mut out: Vec<i32> = Vec::new();
    let mut d: u32 = 1;
    while d <= m
        invariant
            1 <= d <= m + 1,
            m <= i32::MAX,
            m == abs(v as int),
            forall|i: int, j: int| 0 <= i < j < out.len() ==> out[i] < out[j],
            forall|i: int| 0 <= i < out.len() ==> out[i] < d,
            out@ == divisors_upto(m as int, d - 1),
            forall|k: i32| #[trigger]
                out@.contains(k) <==> (k < d && is_divisor(k as int, v as int)),
        decreases m + 1 - d,
    {
        let ghost before = out@;
        if m % d == 0 {
            out.push(d as i32);
        }
        assert forall|k: i32| #[trigger] out@.contains(k) <==> (k < d + 1 && is_divisor(
            k as int,
            v as int,
        )) by {
            if before.contains(k) {
                let i = choose|i: int| 0 <= i < before.len() && before[i] == k;
                assert(out@[i] == k);
            }
            if k == d && m % d == 0 {
                assert(out@[out.len() - 1] == k);
            }
            if out@.contains(k) {
                let i = choose|i: int| 0 <= i < out.len() && out@[i] == k;
                if i < before.len() {
                    assert(before[i] == k);
                }
            }
        }
        d = d + 1;
    }
    out
}

/// `n / d` when the positive `d` divides `n`.
pub open spec fn exact_div(n: int, d: int) -> Option<i32> {
    if d > 0 && n % d == 0 {
        Some((n / d) as i32)
    } else {
        None
    }
}

pub proof fn lemma_exact_quotient(q: int, d: int, n: int)
    requires
        d > 0,
        q * d == n,
    ensures
        n % d == 0,
        n / d == q,
{
    assert(n % d == 0 && n / d == q) by (nonlinear_arith)
        requires
            d > 0,
            q * d == n,
    ;
}

/// `n / d` when `d` divides `n`.
pub fn try_divide(n: i32, d: i32) -> (r: Option<i32>)
    requires
        d != 0,
        !(n == i32::MIN && d == -1),
    ensures
        r is Some <==> divides(d as int, n as int),
        r matches Some(q) ==> q * d == n,
        d > 0 ==> r == exact_div(n as int, d as int),
{
    proof {
        if d > 0 {
            lemma_divides_mod(d as int, n as int);
        }
    }
    let an: u32 = if n < 0 {
        (-(n as i64)) as u32
    } else {
        n as u32
    };
    let ad: u32 = if d < 0 {
        (-(d as i64)) as u32
    } else {
        d as u32
    };
    proof {
        lemma_divides_mod(ad as int, an as int);
        if divides(d as int, n as int) {
            let q = choose|q: int| #[trigger] (q * (d as int)) == n as int;
            let q2 = if (n < 0) == (d < 0) {
                q
            } else {
                -q
            };
            assert(abs(q) * (ad as int) == an as int) by (nonlinear_arith)
                requires
                    q * (d as int) == n as int,
                    ad as int == abs(d as int),
                    an as int == abs(n as int),
            ;
            assert(divides(ad as int, an as int));
        }
    }
    if an % ad == 0 {
        let aq: u32 = an / ad;
        assert(aq * ad == an) by (nonlinear_arith)
            requires
                an % ad == 0,
                aq == an / ad,
                ad > 0,
        ;
        assert(aq <= an) by (nonlinear_arith)
            requires
                aq * ad == an,
                ad >= 1,
        ;
        let q: i64 = if (n < 0) == (d < 0) {
            aq as i64
        } else {
            -(aq as i64)
        };
        assert(q * d == n) by (nonlinear_arith)
            requires
                aq * ad == an,
                ad as int == abs(d as int),
                an as int == abs(n as int),
                q == (if (n < 0) == (d < 0) {
                    aq as int
                } else {
                    -(aq as int)
                }),
        ;
        assert(-0x8000_0000 <= q <= 0x7fff_ffff) by {
            if q == 0x8000_0000 {
                assert(aq == 0x8000_0000);
                assert(ad == 1) by (nonlinear_arith)
                    requires
                        aq * ad == an,
                        aq == 0x8000_0000,
                        an <= 0x8000_0000,
                        ad >= 1,
                ;
            }
        }
        assert(divides(d as int, n as int));
        proof {
            if d > 0 {
                lemma_exact_quotient(q as int, d as int, n as int);
            }
        }
        Some(q as i32)
    } else {
        None
    }
}

pub proof fn lemma_square_monotonic(a: int, b: int)
    requires
        0 <= a <= b,
    ensures
        a * a <= b * b,
{
    assert(a * a <= b * b) by (nonlinear_arith)
        requires
            0 <= a <= b,
    ;
}

/// Whether `v` is the natural number whose square is `x`.
pub open spec fn is_root(v: int, x: int) -> bool {
    0 <= v && v * v == x
}

/// The natural number whose square is `x`, if there is one.
pub open spec fn root_of(x: int) -> Option<i32> {
    if exists|v: int| is_root(v, x) {
        Some((choose|v: int| is_root(v, x)) as i32)
    } else {
        None
    }
}

pub proof fn lemma_root_unique(a: int, b: int, x: int)
    requires
        is_root(a, x),
        is_root(b, x),
    ensures
        a == b,
{
    if a < b {
        assert(a * a < b * b) by (nonlinear_arith)
            requires
                0 <= a < b,
        ;
    }
    if b < a {
        assert(b * b < a * a) by (nonlinear_arith)
            requires
                0 <= b < a,
        ;
    }
}

/// The natural number whose square is `x`, if there is one.
pub fn int_sqrt(x: i32) -> (r: Option<i32>)
    requires
        0 <= x < i32::MAX,
    ensures
        r matches Some(v) ==> 0 <= v && v * v == x,
        r is None ==> forall|v: int| #[trigger] (v * v) != x,
        r == root_of(x as int),
{
    proof {
        if exists|v: int| is_root(v, x as int) {
            let c = choose|v: int| is_root(v, x as int);
            assert forall|v: int| is_root(v, x as int) implies v == c by {
                lemma_root_unique(v, c, x as int);
            }
            assert(c * c == x);
            if c > x {
                assert(c * c > x) by (nonlinear_arith)
                    requires
                        c > x,
                        x >= 0,
                        c >= 0,
                ;
            }
        }
    }
    if x == 0 {
        assert(is_root(0, 0));
        return Some(0);
    }
    if x == 1 {
        assert(is_root(1, 1));
        return Some(1);
    }
    let mut low: i32 = 1;
    let mut high: i32 = x;
    assert forall|v: int| 0 <= v && #[trigger] (v * v) == x implies 1 <= v < x by {
        if v >= 2 {
            assert(v * v > v) by (nonlinear_arith)
                requires
                    v >= 2,
            ;
        }
    }
    loop
        invariant
            2 <= x < i32::MAX,
            1 <= low <= high <= x,
            high <= 0x4000_0000 || low == 1,
            forall|v: int| 0 <= v && #[trigger] (v * v) == x ==> low <= v < high,
        decreases high - low,
    {
        if low == high {
            assert forall|v: int| !is_root(v, x as int) by {
                if is_root(v, x as int) {
                    assert(v * v == x);
                }
            }
            assert forall|v: int| #[trigger] (v * v) != x by {
                if v * v == x {
                    if v < 0 {
                        assert((-v) * (-v) == x) by (nonlinear_arith)
                            requires
                                v * v == x,
                        ;
                    }
                }
            }
            return None;
        }
        let choose: i32 = (low + high) / 2;
        let ghost c2 = choose as int * choose as int;
        proof {
            assert forall|v: int| 0 <= v && #[trigger] (v * v) == x && v >= choose implies c2 <= x by {
                lemma_square_monotonic(choose as int, v);
            }
            assert forall|v: int| 0 <= v && #[trigger] (v * v) == x && v <= choose implies c2 >= x by {
                lemma_square_monotonic(v, choose as int);
            }
        }
        match choose.checked_mul(choose) {
            None => {
                high = choose;
            },
            Some(c) => {
                if c > x {
                    high = choose;
                } else if c == x {
                    proof {
                        assert(is_root(choose as int, x as int));
                        let c = choose|v: int| is_root(v, x as int);
                        lemma_root_unique(c, choose as int, x as int);
                    }
                    return Some(choose);
                } else {
                    proof {
                        if choose > 0x2000_0000 {
                            assert(choose as int * choose as int > 0x7fff_ffff) by (nonlinear_arith)
                                requires
                                    choose > 0x2000_0000,
                            ;
                        }
                    }
                    low = choose + 1;
                }
            },
        }
    }
}

/// Whether `p` lies in the target area.
pub open spec fn in_bounds(target: (i32, i32, i32, i32), p: (i32, i32)) -> bool {
    target.0 <= p.0 <= target.1 && target.2 <= p.1 <= target.3
}

/// Whether `a` comes before `b` when pairs are ordered by their first
/// part, then by their second.
pub open spec fn pair_before(a: (i32, i32), b: (i32, i32)) -> bool {
    a.0 < b.0 || (a.0 == b.0 && a.1 < b.1)
}

/// The pairs of the target area, in rising order.
pub fn find_in_bounds(target: (i32, i32, i32, i32)) -> (r: Vec<(i32, i32)>)
    ensures
        forall|p: (i32, i32)| #[trigger] r@.contains(p) <==> in_bounds(target, p),
        forall|i: int, j: int| 0 <= i < j < r.len() ==> pair_before(r[i], r[j]),
{
    let mut out: Vec<(i32, i32)> = Vec::new();
    if target.0 > target.1 || target.2 > target.3 {
        return out;
    }
    let mut tx: i32 = target.0;
    loop
        invariant_except_break
            forall|i: int| 0 <= i < out.len() ==> out[i].0 < tx,
            forall|p: (i32, i32)| #[trigger]
                out@.contains(p) <==> (in_bounds(target, p) && p.0 < tx),
        invariant
            target.0 <= tx <= target.1,
            target.2 <= target.3,
            forall|i: int, j: int| 0 <= i < j < out.len() ==> pair_before(out[i], out[j]),
        ensures
            forall|i: int, j: int| 0 <= i < j < out.len() ==> pair_before(out[i], out[j]),
            forall|p: (i32, i32)| #[trigger] out@.contains(p) <==> in_bounds(target, p),
        decreases target.1 - tx,
    {
        let mut ty: i32 = target.2;
        loop
            invariant_except_break
                forall|i: int| 0 <= i < out.len() ==> pair_before(out[i], (tx, ty)),
                forall|p: (i32, i32)| #[trigger]
                    out@.contains(p) <==> (in_bounds(target, p) && pair_before(p, (tx, ty))),
            invariant
                target.0 <= tx <= target.1,
                target.2 <= ty <= target.3,
                forall|i: int, j: int| 0 <= i < j < out.len() ==> pair_before(out[i], out[j]),
            ensures
                target.0 <= tx <= target.1,
                forall|i: int| 0 <= i < out.len() ==> out[i].0 <= tx,
                forall|i: int, j: int| 0 <= i < j < out.len() ==> pair_before(out[i], out[j]),
                forall|p: (i32, i32)| #[trigger]
                    out@.contains(p) <==> (in_bounds(target, p) && p.0 <= tx),
            decreases target.3 - ty,
        {
            let ghost before = out@;
            out.push((tx, ty));
            proof {
                assert forall|p: (i32, i32)| #[trigger]
                    out@.contains(p) <==> (before.contains(p) || p == (tx, ty)) by {
                    if before.contains(p) {
                        let i = choose|i: int| 0 <= i < before.len() && before[i] == p;
                        assert(out@[i] == p);
                    }
                    if p == (tx, ty) {
                        assert(out@[out.len() - 1] == p);
                    }
                    if out@.contains(p) {
                        let i = choose|i: int| 0 <= i < out.len() && out@[i] == p;
                        if i < before.len() {
                            assert(before[i] == p);
                        }
                    }
                }
            }
            if ty == target.3 {
                break ;
            }
            ty = ty + 1;
        }
        if tx == target.1 {
            break ;
        }
        tx = tx + 1;
    }
    out
}

/// The launches that take `n` steps to the point `(tx, ty)`, `tx` not
/// negative: for each the number of steps and the two starting speeds.
///
/// The forward speed is one with which the probe is still moving after
/// `n` steps, or the one with which it comes to rest at `tx` within `n`
/// steps; the upward speed is the one that reaches `ty` in `n` steps.
pub open spec fn hits_for(n: int, tx: int, ty: int) -> Seq<(i32, i32, i32)> {
    let stopping: Option<i32> = match root_of(1 + 8 * tx) {
        Some(v) => match exact_div(v - 1, 2) {
            Some(m) => if m <= n {
                Some(m)
            } else {
                None
            },
            None => None,
        },
        None => None,
    };
    let passing: Option<i32> = match exact_div(2 * tx + n * (n - 1), 2 * n) {
        Some(dx) => if dx > n {
            Some(dx)
        } else {
            None
        },
        None => None,
    };
    match exact_div(2 * ty + n * (n - 1), 2 * n) {
        Some(dy) => (match passing {
            Some(dx) => seq![(n as i32, dx, dy)],
            None => seq![],
        }) + (match stopping {
            Some(dx) => seq![(n as i32, dx, dy)],
            None => seq![],
        }),
        None => seq![],
    }
}

/// The launches that reach `(tx, ty)` in a number of steps taken from
/// `steps`, in the order of `steps`.
pub open spec fn hits_over(steps: Seq<i32>, tx: int, ty: int) -> Seq<(i32, i32, i32)>
    decreases steps.len(),
{
    if steps.len() == 0 {
        seq![]
    } else {
        hits_over(steps.drop_last(), tx, ty) + hits_for(steps.last() as int, tx, ty)
    }
}

/// The launches that put the probe on the point `(tx, ty)` after some
/// step: the numbers of steps tried are the divisors of `2 * ty`.
pub open spec fn hitting_spec(tx: int, ty: int) -> Seq<(i32, i32, i32)> {
    hits_over(divisors_of(2 * ty), abs(tx), ty)
}

pub proof fn lemma_divisors_upto_bounds(v: int, d: int)
    requires
        0 <= d <= v <= i32::MAX,
    ensures
        forall|i: int|
            0 <= i < divisors_upto(v, d).len() ==> 1 <= #[trigger] divisors_upto(v, d)[i] <= d,
    decreases d,
{
    if d > 0 {
        lemma_divisors_upto_bounds(v, d - 1);
        let prev = divisors_upto(v, d - 1);
        let all = divisors_upto(v, d);
        assert forall|i: int| 0 <= i < all.len() implies 1 <= #[trigger] all[i] <= d by {
            if i < prev.len() {
                assert(all[i] == prev[i]);
            }
        }
    }
}

/// Finds the launches that put the probe on the point `(tx, ty)`.
pub fn find_all_hitting(tx: i32, ty: i32) -> (r: Vec<(i32, i32, i32)>)
    requires
        -0x0800_0000 < tx < 0x0800_0000,
        -16384 <= ty <= 16384,
    ensures
        r@ == hitting_spec(tx as int, ty as int),
        ty != 0 ==> forall|n: i32, dx: i32, dy: i32| #[trigger]
            r@.contains((n, dx, dy)) <==> lands(
                n as int,
                dx as int,
                dy as int,
                abs(tx as int),
                ty as int,
            ),
{
    let ghost far = tx;
    let tx: i32 = if tx < 0 {
        -tx
    } else {
        tx
    };
    let steps = find_all_plus_divides(2 * ty);
    proof {
        lemma_divisors_upto_bounds(abs(2 * ty), abs(2 * ty));
    }
    let mut out: Vec<(i32, i32, i32)> = Vec::new();
    let mut i: usize = 0;
    while i < steps.len()
        invariant
            i <= steps.len(),
            0 <= tx < 0x0800_0000,
            -16384 <= ty <= 16384,
            forall|k: int| 0 <= k < steps.len() ==> 1 <= #[trigger] steps@[k] <= 32768,
            out@ == hits_over(steps@.subrange(0, i as int), tx as int, ty as int),
        decreases steps.len() - i,
    {
        let n: i32 = steps[i];
        proof {
            assert(1 <= steps@[i as int] <= 32768);
            assert(steps@.subrange(0, i + 1).drop_last() =~= steps@.subrange(0, i as int));
            assert(steps@.subrange(0, i + 1).last() == n);
            assert(0 <= n * (n - 1) <= 32768 * 32767) by (nonlinear_arith)
                requires
                    1 <= n <= 32768,
            ;
        }
        let tri: i32 = n * (n - 1);
        let stopping: Option<i32> = match int_sqrt(1 + 8 * tx) {
            Some(v) => match try_divide(v - 1, 2) {
                Some(m) => if m <= n {
                    Some(m)
                } else {
                    None
                },
                None => None,
            },
            None => None,
        };
        let passing: Option<i32> = match try_divide(2 * tx + tri, 2 * n) {
            Some(dx) => if dx > n {
                Some(dx)
            } else {
                None
            },
            None => None,
        };
        let ghost before = out@;
        match try_divide(2 * ty + tri, 2 * n) {
            Some(dy) => {
                match passing {
                    Some(dx) => {
                        out.push((n, dx, dy));
                    },
                    None => {},
                }
                match stopping {
                    Some(dx) => {
                        out.push((n, dx, dy));
                    },
                    None => {},
                }
            },
            None => {},
        }
        assert(out@ =~= before + hits_for(n as int, tx as int, ty as int));
        i = i + 1;
    }
    assert(steps@.subrange(0, i as int) =~= steps@);
    proof {
        assert(out@ == hitting_spec(far as int, ty as int));
        if ty != 0 {
            assert forall|n: i32, dx: i32, dy: i32| #[trigger]
                out@.contains((n, dx, dy)) <==> lands(
                    n as int,
                    dx as int,
                    dy as int,
                    abs(far as int),
                    ty as int,
                ) by {
                lemma_hitting(far as int, ty as int, n, dx, dy);
            }
        }
    }
    out
}

/// What has been found out about the launches: the pairs of starting
/// speeds that hit, each once, and the greatest upward speed among them.
pub struct Summary {
    pub speeds: Seq<(i32, i32)>,
    pub best: Option<i32>,
}

/// The summary after one more launch.
pub open spec fn note(s: Summary, hit: (i32, i32, i32)) -> Summary {
    Summary {
        speeds: if s.speeds.contains((hit.1, hit.2)) {
            s.speeds
        } else {
            s.speeds.push((hit.1, hit.2))
        },
        best: match s.best {
            Some(b) => Some(
                if hit.2 > b {
                    hit.2
                } else {
                    b
                },
            ),
            None => Some(hit.2),
        },
    }
}

/// The summary after the first `k` of the launches `hits`.
pub open spec fn note_all(s: Summary, hits: Seq<(i32, i32, i32)>, k: int) -> Summary
    decreases k,
{
    if k <= 0 {
        s
    } else {
        note(note_all(s, hits, k - 1), hits[k - 1])
    }
}

/// The summary of the launches that hit one of the first `k` of the
/// points.
pub open spec fn survey(points: Seq<(i32, i32)>, k: int) -> Summary
    decreases k,
{
    if k <= 0 {
        Summary { speeds: seq![], best: None }
    } else {
        let hits = hitting_spec(points[k - 1].0 as int, points[k - 1].1 as int);
        note_all(survey(points, k - 1), hits, hits.len() as int)
    }
}

/// The height that a probe reaches when it starts upward with speed `v`.
pub open spec fn peak(v: int) -> int {
    v * (v + 1) / 2
}

/// The answer that a summary gives: the height reached with the greatest
/// upward speed, and the number of pairs of starting speeds. `None` when
/// nothing hits or the height leaves the range of `i32`.
pub open spec fn answer(s: Summary) -> Option<(i32, usize)> {
    match s.best {
        Some(b) => if i32::MIN <= peak(b as int) <= i32::MAX {
            Some((peak(b as int) as i32, s.speeds.len() as usize))
        } else {
            None
        },
        None => None,
    }
}

/// Whether the points of the target area can be worked with.
pub open spec fn workable(target: (i32, i32, i32, i32)) -> bool {
    -0x0800_0000 < target.0 && target.1 < 0x0800_0000 && -16384 <= target.2 && target.3 <= 16384
}

fn has_speed(speeds: &Vec<(i32, i32)>, v: (i32, i32)) -> (r: bool)
    ensures
        r == speeds@.contains(v),
{
    let mut i: usize = 0;
    while i < speeds.len()
        invariant
            i <= speeds.len(),
            forall|k: int| 0 <= k < i ==> speeds@[k] != v,
        decreases speeds.len() - i,
    {
        if speeds[i].0 == v.0 && speeds[i].1 == v.1 {
            return true;
        }
        i = i + 1;
    }
    false
}

/// Finds every launch that puts the probe on a point of the target area,
/// and returns the greatest height reached and the number of different
/// pairs of starting speeds.
pub fn solve(target: (i32, i32, i32, i32)) -> (r: Option<(i32, usize)>)
    requires
        workable(target),
    ensures
        target.2 > 0 || target.3 < 0 ==> answers(target, r),
        exists|points: Seq<(i32, i32)>|
            (forall|p: (i32, i32)| #[trigger] points.contains(p) <==> in_bounds(target, p))
                && (forall|i: int, j: int|
                0 <= i < j < points.len() ==> pair_before(points[i], points[j])) && r == answer(
                #[trigger] survey(points, points.len() as int),
            ),
{
    let points = find_in_bounds(target);
    let mut speeds: Vec<(i32, i32)> = Vec::new();
    let mut best: Option<i32> = None;
    let mut k: usize = 0;
    assert(speeds@ =~= seq![]);
    while k < points.len()
        invariant
            k <= points.len(),
            workable(target),
            forall|p: (i32, i32)| #[trigger] points@.contains(p) <==> in_bounds(target, p),
            (Summary { speeds: speeds@, best }) == survey(points@, k as int),
        decreases points.len() - k,
    {
        let (tx, ty) = points[k];
        proof {
            assert(points@.contains(points@[k as int]));
            assert(in_bounds(target, points@[k as int]));
        }
        let hits = find_all_hitting(tx, ty);
        let ghost base = Summary { speeds: speeds@, best };
        let mut i: usize = 0;
        while i < hits.len()
            invariant
                i <= hits.len(),
                (Summary { speeds: speeds@, best }) == note_all(base, hits@, i as int),
            decreases hits.len() - i,
        {
            let (_n, dx, dy) = hits[i];
            if !has_speed(&speeds, (dx, dy)) {
                speeds.push((dx, dy));
            }
            best = match best {
                Some(b) => Some(
                    if dy > b {
                        dy
                    } else {
                        b
                    },
                ),
                None => Some(dy),
            };
            i = i + 1;
        }
        k = k + 1;
    }
    proof {
        assert(k == points.len());
        assert((Summary { speeds: speeds@, best }) == survey(points@, points.len() as int));
        assert(survey(points@, points.len() as int).speeds.len() == speeds.len());
        if target.2 > 0 || target.3 < 0 {
            lemma_answer(target, points@);
        }
    }
    match best {
        Some(b) => {
            let wide: i64 = b as i64;
            assert(-0x4000_0000_0000_0000 <= wide * (wide + 1) <= 0x4000_0000_0000_0000
                && wide * (wide + 1) >= 0) by (nonlinear_arith)
                requires
                    -0x8000_0000 <= wide <= 0x7fff_ffff,
            ;
            let height: i64 = (wide * (wide + 1)) / 2;
            if height > 2147483647 {
                None
            } else {
                Some((height as i32, speeds.len()))
            }
        },
        None => None,
    }
}

} // verus!
