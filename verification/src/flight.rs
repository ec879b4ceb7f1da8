use crate::probe::{
    abs, answer, divisors_of, divisors_upto, exact_div, hits_for, hits_over, hitting_spec,
    in_bounds, is_root, lemma_exact_quotient, lemma_root_unique, note, note_all, peak, root_of,
    survey, workable, Summary,
};
use vstd::prelude::*;

verus! {

/// How far forward the probe is after `n` steps when it starts with the
/// forward speed `dx`: with every step it moves on by its speed, and the
/// speed falls by one until it is 0.
pub open spec fn x_after(dx: int, n: nat) -> int
    decreases n,
{
    if n == 0 {
        0
    } else {
        x_after(dx, (n - 1) as nat) + (if dx - (n - 1) > 0 {
            dx - (n - 1)
        } else {
            0
        })
    }
}

/// How high the probe is after `n` steps when it starts with the upward
/// speed `dy`: with every step it moves on by its speed, and the speed
/// falls by one.
pub open spec fn y_after(dy: int, n: nat) -> int
    decreases n,
{
    if n == 0 {
        0
    } else {
        y_after(dy, (n - 1) as nat) + (dy - (n - 1))
    }
}

/// Whether the launch with the speeds `dx` and `dy` puts the probe on the
/// point `(tx, ty)` after `n` steps.
pub open spec fn lands(n: int, dx: int, dy: int, tx: int, ty: int) -> bool {
    n >= 1 && dx >= 0 && x_after(dx, n as nat) == tx && y_after(dy, n as nat) == ty
}

pub proof fn lemma_y_after(dy: int, n: nat)
    ensures
        2 * y_after(dy, n) == 2 * n * dy - n * (n - 1),
    decreases n,
{
    if n > 0 {
        lemma_y_after(dy, (n - 1) as nat);
        assert(2 * (n - 1) * dy - (n - 1) * (n - 2) + 2 * (dy - (n - 1)) == 2 * n * dy - n * (n
            - 1)) by (nonlinear_arith);
    } else {
        assert(2 * n * dy - n * (n - 1) == 0) by (nonlinear_arith)
            requires
                n == 0,
        ;
    }
}

pub proof fn lemma_x_after(dx: int, n: nat)
    requires
        dx >= 0,
    ensures
        2 * x_after(dx, n) == (if n <= dx {
            2 * n * dx - n * (n - 1)
        } else {
            dx * (dx + 1)
        }),
    decreases n,
{
    if n > 0 {
        lemma_x_after(dx, (n - 1) as nat);
        if n <= dx {
            assert(2 * (n - 1) * dx - (n - 1) * (n - 2) + 2 * (dx - (n - 1)) == 2 * n * dx - n * (n
                - 1)) by (nonlinear_arith);
        } else if n - 1 <= dx {
            assert(2 * (n - 1) * dx - (n - 1) * (n - 2) == dx * (dx + 1)) by (nonlinear_arith)
                requires
                    n - 1 == dx,
            ;
        }
    } else {
        assert(2 * n * dx - n * (n - 1) == 0) by (nonlinear_arith)
            requires
                n == 0,
        ;
    }
}

pub proof fn lemma_divisors_contain(v: int, k: int, d: i32)
    requires
        0 <= k <= i32::MAX,
    ensures
        divisors_upto(v, k).contains(d) <==> 1 <= d <= k && v % (d as int) == 0,
    decreases k,
{
    if k > 0 {
        lemma_divisors_contain(v, k - 1, d);
        let prev = divisors_upto(v, k - 1);
        let all = divisors_upto(v, k);
        if v % k == 0 {
            assert(all == prev.push(k as i32));
            if prev.contains(d) {
                let i = choose|i: int| 0 <= i < prev.len() && prev[i] == d;
                assert(all[i] == d);
            }
            if d == k {
                assert(all[prev.len() as int] == d);
            }
            if all.contains(d) {
                let i = choose|i: int| 0 <= i < all.len() && all[i] == d;
                if i < prev.len() {
                    assert(prev[i] == d);
                }
            }
        }
    }
}

pub proof fn lemma_hits_over(steps: Seq<i32>, tx: int, ty: int, h: (i32, i32, i32))
    ensures
        hits_over(steps, tx, ty).contains(h) <==> exists|i: int|
            0 <= i < steps.len() && hits_for(#[trigger] steps[i] as int, tx, ty).contains(h),
    decreases steps.len(),
{
    if steps.len() > 0 {
        let head = steps.drop_last();
        let a = hits_over(head, tx, ty);
        let b = hits_for(steps.last() as int, tx, ty);
        lemma_hits_over(head, tx, ty, h);
        let all = a + b;
        if a.contains(h) {
            let j = choose|j: int| 0 <= j < a.len() && a[j] == h;
            assert(all[j] == h);
            let i = choose|i: int|
                0 <= i < head.len() && hits_for(#[trigger] head[i] as int, tx, ty).contains(h);
            assert(steps[i] == head[i]);
        }
        if b.contains(h) {
            let j = choose|j: int| 0 <= j < b.len() && b[j] == h;
            assert(all[a.len() + j] == h);
            assert(hits_for(steps[steps.len() - 1] as int, tx, ty).contains(h));
        }
        if all.contains(h) {
            let j = choose|j: int| 0 <= j < all.len() && all[j] == h;
            if j < a.len() {
                assert(a[j] == h);
            } else {
                assert(b[j - a.len()] == h);
            }
        }
        if exists|i: int|
            0 <= i < steps.len() && hits_for(#[trigger] steps[i] as int, tx, ty).contains(h) {
            let i = choose|i: int|
                0 <= i < steps.len() && hits_for(#[trigger] steps[i] as int, tx, ty).contains(h);
            if i < head.len() {
                assert(head[i] == steps[i]);
            }
        }
    }
}

/// The launches found for `n` steps are those that land after `n`
/// steps.
pub proof fn lemma_hits_for(n: int, tx: int, ty: int, k: i32, dx: i32, dy: i32)
    requires
        1 <= n <= 32768,
        0 <= tx < 0x0800_0000,
        -16384 <= ty <= 16384,
    ensures
        hits_for(n, tx, ty).contains((k, dx, dy)) <==> k == n && lands(n, dx as int, dy as int, tx, ty),
{
    let h = (k, dx, dy);
    let all = hits_for(n, tx, ty);
    let a = 2 * ty + n * (n - 1);
    let b = 2 * tx + n * (n - 1);
    let d = 2 * n;
    assert(0 <= n * (n - 1) <= 32768 * 32767) by (nonlinear_arith)
        requires
            1 <= n <= 32768,
    ;
    lemma_y_after(dy as int, n as nat);
    if dx >= 0 {
        lemma_x_after(dx as int, n as nat);
    }
    let stopping: Option<i32> = match root_of(1 + 8 * tx) {
        Some(v) => match exact_div(v - 1, 2) {
            Some(m) => if m <= n {
                Some(m)
            } else {
                None
            },
            None => None,
        },
        None => None,
    };
    let passing: Option<i32> = match exact_div(b, d) {
        Some(x) => if x > n {
            Some(x)
        } else {
            None
        },
        None => None,
    };
    // what the quotients are
    if a % d == 0 {
        let q = a / d;
        assert(q * d == a && -0x4000_0000 <= q <= 0x4000_0000) by (nonlinear_arith)
            requires
                a % d == 0,
                q == a / d,
                d >= 2,
                -0x4000_0000 <= a <= 0x4000_0000,
        ;
    }
    if b % d == 0 {
        let q = b / d;
        assert(q * d == b && 0 <= q <= 0x7000_0000) by (nonlinear_arith)
            requires
                b % d == 0,
                q == b / d,
                d >= 2,
                0 <= b <= 0x7000_0000,
        ;
    }
    let r = 1 + 8 * tx;
    if exists|v: int| is_root(v, r) {
        let v = choose|v: int| is_root(v, r);
        assert(1 <= v <= 0x10000) by (nonlinear_arith)
            requires
                0 <= v,
                v * v == 1 + 8 * tx,
                0 <= tx < 0x0800_0000,
        ;
        if (v - 1) % 2 == 0 {
            let m = (v - 1) / 2;
            assert(m * (m + 1) == 2 * tx && 0 <= m) by (nonlinear_arith)
                requires
                    v * v == 1 + 8 * tx,
                    v - 1 == 2 * m,
                    1 <= v,
            ;
            lemma_x_after(m, n as nat);
            if n <= m && m <= n {
                assert(2 * n * m - n * (n - 1) == m * (m + 1)) by (nonlinear_arith)
                    requires
                        n == m,
                ;
            }
        }
    }
    if all.contains(h) {
        let i = choose|i: int| 0 <= i < all.len() && all[i] == h;
        assert(k == n);
        assert(a % d == 0 && dy == a / d);
        assert(2 * n * dy == a) by (nonlinear_arith)
            requires
                dy * d == a,
                d == 2 * n,
        ;
        if passing is Some && dx == passing.unwrap() {
            assert(2 * n * dx == b) by (nonlinear_arith)
                requires
                    dx * d == b,
                    d == 2 * n,
            ;
        } else {
            assert(stopping is Some && dx == stopping.unwrap());
        }
        assert(lands(n, dx as int, dy as int, tx, ty));
    }
    if k == n && lands(n, dx as int, dy as int, tx, ty) {
        assert(dy * d == a) by (nonlinear_arith)
            requires
                2 * n * dy - n * (n - 1) == 2 * ty,
                a == 2 * ty + n * (n - 1),
                d == 2 * n,
        ;
        lemma_exact_quotient(dy as int, d, a);
        assert(exact_div(a, d) == Some(dy));
        if dx > n {
            assert(dx * d == b) by (nonlinear_arith)
                requires
                    2 * n * dx - n * (n - 1) == 2 * tx,
                    b == 2 * tx + n * (n - 1),
                    d == 2 * n,
            ;
            lemma_exact_quotient(dx as int, d, b);
            assert(passing == Some(dx));
            assert(all[0] == h);
        } else {
            let x = dx as int;
            assert(x * (x + 1) == 2 * tx) by {
                if n <= x {
                    assert(2 * n * x - n * (n - 1) == x * (x + 1)) by (nonlinear_arith)
                        requires
                            n == x,
                    ;
                }
            }
            let v = 2 * x + 1;
            assert(is_root(v, r)) by (nonlinear_arith)
                requires
                    x * (x + 1) == 2 * tx,
                    v == 2 * x + 1,
                    x >= 0,
                    r == 1 + 8 * tx,
            ;
            let w = choose|w: int| is_root(w, r);
            lemma_root_unique(v, w, r);
            assert(0 <= x <= 32768);
            assert(root_of(1 + 8 * tx) == Some(v as i32));
            lemma_exact_quotient(x, 2, v - 1);
            assert(exact_div(v - 1, 2) == Some(dx));
            assert(stopping == Some(dx));
            assert(all[all.len() - 1] == h);
        }
    }
}

/// The launches found for a point are those that land on it after some
/// step.
pub proof fn lemma_hitting(far: int, ty: int, n: i32, dx: i32, dy: i32)
    requires
        -0x0800_0000 < far < 0x0800_0000,
        -16384 <= ty <= 16384,
        ty != 0,
    ensures
        hitting_spec(far, ty).contains((n, dx, dy)) <==> lands(
            n as int,
            dx as int,
            dy as int,
            abs(far),
            ty,
        ),
{
    let h = (n, dx, dy);
    let v = abs(2 * ty);
    let steps = divisors_of(2 * ty);
    let tx = abs(far);
    lemma_hits_over(steps, tx, ty, h);
    if hitting_spec(far, ty).contains(h) {
        let i = choose|i: int|
            0 <= i < steps.len() && hits_for(#[trigger] steps[i] as int, tx, ty).contains(h);
        assert(steps.contains(steps[i]));
        lemma_divisors_contain(v, v, steps[i]);
        lemma_hits_for(steps[i] as int, tx, ty, n, dx, dy);
    }
    if lands(n as int, dx as int, dy as int, tx, ty) {
        lemma_y_after(dy as int, n as nat);
        let q = 2 * dy - n + 1;
        assert(n * q == 2 * ty) by (nonlinear_arith)
            requires
                2 * n * dy - n * (n - 1) == 2 * ty,
                q == 2 * dy - n + 1,
        ;
        let aq = abs(q);
        assert(aq * n == v && aq >= 1) by (nonlinear_arith)
            requires
                n * q == 2 * ty,
                n >= 1,
                ty != 0,
                aq == (if q >= 0 {
                    q
                } else {
                    -q
                }),
                v == (if 2 * ty >= 0 {
                    2 * ty
                } else {
                    -(2 * ty)
                }),
        ;
        lemma_exact_quotient(aq, n as int, v);
        assert(n <= v) by (nonlinear_arith)
            requires
                aq * n == v,
                aq >= 1,
                n >= 1,
        ;
        lemma_divisors_contain(v, v, n);
        let i = choose|i: int| 0 <= i < steps.len() && steps[i] == n;
        lemma_hits_for(n as int, tx, ty, n, dx, dy);
        assert(hits_for(steps[i] as int, tx, ty).contains(h));
    }
}

/// Whether the launch with the speeds `v` puts the probe on the point
/// `p` after `n` steps; a point behind the start counts as the point as
/// far ahead.
pub open spec fn lands_on(n: i32, v: (i32, i32), p: (i32, i32)) -> bool {
    lands(n as int, v.0 as int, v.1 as int, abs(p.0 as int), p.1 as int)
}

/// Whether the launch with the speeds `v` puts the probe on a point of
/// the target area after some step.
pub open spec fn reaches(target: (i32, i32, i32, i32), v: (i32, i32)) -> bool {
    exists|n: i32, p: (i32, i32)| in_bounds(target, p) && #[trigger] lands_on(n, v, p)
}

/// Whether the hit `h` has the speeds `v`.
pub open spec fn has_speeds(h: (i32, i32, i32), v: (i32, i32)) -> bool {
    h.1 == v.0 && h.2 == v.1
}

/// Whether a summary tells what the hits `hs` have shown: it holds the
/// speeds of each hit once, and the greatest upward speed among them.
pub open spec fn noted(s: Summary, hs: Seq<(i32, i32, i32)>) -> bool {
    &&& s.speeds.no_duplicates()
    &&& forall|v: (i32, i32)| #[trigger]
        s.speeds.contains(v) <==> exists|j: int|
            0 <= j < hs.len() && has_speeds(#[trigger] hs[j], v)
    &&& s.best is None <==> hs.len() == 0
    &&& s.best matches Some(b) ==> (exists|j: int| 0 <= j < hs.len() && (#[trigger] hs[j]).2 == b)
        && forall|j: int| 0 <= j < hs.len() ==> (#[trigger] hs[j]).2 <= b
}

pub proof fn lemma_note(s: Summary, hs: Seq<(i32, i32, i32)>, hit: (i32, i32, i32))
    requires
        noted(s, hs),
    ensures
        noted(note(s, hit), hs.push(hit)),
{
    let t = note(s, hit);
    let all = hs.push(hit);
    let w = (hit.1, hit.2);
    assert(has_speeds(all[hs.len() as int], w));
    assert forall|v: (i32, i32)| #[trigger]
        t.speeds.contains(v) <==> exists|j: int|
            0 <= j < all.len() && has_speeds(#[trigger] all[j], v) by {
        if s.speeds.contains(v) {
            let j = choose|j: int| 0 <= j < hs.len() && has_speeds(#[trigger] hs[j], v);
            assert(has_speeds(all[j], v));
            let i = choose|i: int| 0 <= i < s.speeds.len() && s.speeds[i] == v;
            assert(t.speeds[i] == v);
        }
        if v == w {
            if !s.speeds.contains(w) {
                assert(t.speeds[s.speeds.len() as int] == w);
            }
        }
        if t.speeds.contains(v) {
            let i = choose|i: int| 0 <= i < t.speeds.len() && t.speeds[i] == v;
            if i < s.speeds.len() {
                assert(s.speeds[i] == v);
            }
        }
        if exists|j: int| 0 <= j < all.len() && has_speeds(#[trigger] all[j], v) {
            let j = choose|j: int| 0 <= j < all.len() && has_speeds(#[trigger] all[j], v);
            if j < hs.len() {
                assert(has_speeds(hs[j], v));
            }
        }
    }
    assert(t.speeds.no_duplicates()) by {
        assert forall|i: int, j: int|
            0 <= i < t.speeds.len() && 0 <= j < t.speeds.len() && i != j implies t.speeds[i]
            != t.speeds[j] by {
            if i < s.speeds.len() && j < s.speeds.len() {
            } else if i < s.speeds.len() {
                assert(s.speeds.contains(s.speeds[i]));
            } else if j < s.speeds.len() {
                assert(s.speeds.contains(s.speeds[j]));
            }
        }
    }
    match s.best {
        Some(b) => {
            let k = choose|k: int| 0 <= k < hs.len() && (#[trigger] hs[k]).2 == b;
            assert(all[k].2 == b);
            assert(all[hs.len() as int].2 == hit.2);
            assert forall|j: int| 0 <= j < all.len() implies (#[trigger] all[j]).2
                <= t.best.unwrap() by {
                if j < hs.len() {
                    assert(hs[j].2 <= b);
                }
            }
        },
        None => {
            assert(all[0].2 == hit.2);
        },
    }
}

pub proof fn lemma_note_all(
    s: Summary,
    hs: Seq<(i32, i32, i32)>,
    hits: Seq<(i32, i32, i32)>,
    k: int,
)
    requires
        noted(s, hs),
        0 <= k <= hits.len(),
    ensures
        noted(note_all(s, hits, k), hs + hits.subrange(0, k)),
    decreases k,
{
    if k == 0 {
        assert(hs + hits.subrange(0, 0) =~= hs);
    } else {
        lemma_note_all(s, hs, hits, k - 1);
        lemma_note(note_all(s, hits, k - 1), hs + hits.subrange(0, k - 1), hits[k - 1]);
        assert((hs + hits.subrange(0, k - 1)).push(hits[k - 1]) =~= hs + hits.subrange(0, k));
    }
}

/// The hits on the first `k` of the points, point after point.
pub open spec fn all_hits(points: Seq<(i32, i32)>, k: int) -> Seq<(i32, i32, i32)>
    decreases k,
{
    if k <= 0 {
        seq![]
    } else {
        all_hits(points, k - 1) + hitting_spec(points[k - 1].0 as int, points[k - 1].1 as int)
    }
}

pub proof fn lemma_survey(points: Seq<(i32, i32)>, k: int)
    requires
        0 <= k <= points.len(),
    ensures
        noted(survey(points, k), all_hits(points, k)),
    decreases k,
{
    if k > 0 {
        lemma_survey(points, k - 1);
        let hits = hitting_spec(points[k - 1].0 as int, points[k - 1].1 as int);
        lemma_note_all(survey(points, k - 1), all_hits(points, k - 1), hits, hits.len() as int);
        assert(hits.subrange(0, hits.len() as int) =~= hits);
    }
}

pub proof fn lemma_all_hits(points: Seq<(i32, i32)>, k: int, h: (i32, i32, i32))
    requires
        0 <= k <= points.len(),
    ensures
        all_hits(points, k).contains(h) <==> exists|i: int|
            0 <= i < k && hitting_spec(
                (#[trigger] points[i]).0 as int,
                points[i].1 as int,
            ).contains(h),
    decreases k,
{
    if k > 0 {
        lemma_all_hits(points, k - 1, h);
        let a = all_hits(points, k - 1);
        let b = hitting_spec(points[k - 1].0 as int, points[k - 1].1 as int);
        let all = a + b;
        if a.contains(h) {
            let j = choose|j: int| 0 <= j < a.len() && a[j] == h;
            assert(all[j] == h);
        }
        if b.contains(h) {
            let j = choose|j: int| 0 <= j < b.len() && b[j] == h;
            assert(all[a.len() + j] == h);
        }
        if all.contains(h) {
            let j = choose|j: int| 0 <= j < all.len() && all[j] == h;
            if j < a.len() {
                assert(a[j] == h);
            } else {
                assert(b[j - a.len()] == h);
            }
        }
    }
}

/// Whether `r` is the answer for a target area: the height that the
/// launch with the greatest upward speed among those that reach the area
/// comes to, and the number of the launches that reach it. There is no
/// answer where no launch reaches the area or the height leaves the
/// range of `i32`.
pub open spec fn answers(target: (i32, i32, i32, i32), r: Option<(i32, usize)>) -> bool {
    exists|speeds: Seq<(i32, i32)>|
        #![trigger speeds.no_duplicates()]
        {
            &&& speeds.no_duplicates()
            &&& forall|v: (i32, i32)| #[trigger] speeds.contains(v) <==> reaches(target, v)
            &&& match r {
                Some(a) => a.1 == speeds.len() && exists|v: (i32, i32)|
                    #[trigger] speeds.contains(v) && a.0 == peak(v.1 as int) && forall|
                        u: (i32, i32),
                    | #[trigger] speeds.contains(u) ==> u.1 <= v.1,
                None => speeds.len() == 0 || exists|v: (i32, i32)|
                    #[trigger] speeds.contains(v) && peak(v.1 as int) > i32::MAX,
            }
        }
}

/// The summary of the hits on the points of a target area that lies
/// above or below the start gives the answer for the area.
pub proof fn lemma_answer(target: (i32, i32, i32, i32), points: Seq<(i32, i32)>)
    requires
        workable(target),
        target.2 > 0 || target.3 < 0,
        forall|p: (i32, i32)| #[trigger] points.contains(p) <==> in_bounds(target, p),
        survey(points, points.len() as int).speeds.len() <= usize::MAX,
    ensures
        answers(target, answer(survey(points, points.len() as int))),
{
    let k = points.len() as int;
    let s = survey(points, k);
    let hs = all_hits(points, k);
    lemma_survey(points, k);
    assert forall|v: (i32, i32)| #[trigger] s.speeds.contains(v) <==> reaches(target, v) by {
        if s.speeds.contains(v) {
            let j = choose|j: int| 0 <= j < hs.len() && has_speeds(#[trigger] hs[j], v);
            let h = hs[j];
            assert(hs.contains(h));
            lemma_all_hits(points, k, h);
            let i = choose|i: int|
                0 <= i < k && hitting_spec(
                    (#[trigger] points[i]).0 as int,
                    points[i].1 as int,
                ).contains(h);
            let p = points[i];
            assert(points.contains(p));
            lemma_hitting(p.0 as int, p.1 as int, h.0, h.1, h.2);
            assert(lands_on(h.0, v, p));
        }
        if reaches(target, v) {
            let (n, p) = choose|n: i32, p: (i32, i32)|
                in_bounds(target, p) && #[trigger] lands_on(n, v, p);
            assert(points.contains(p));
            let i = choose|i: int| 0 <= i < points.len() && points[i] == p;
            let h = (n, v.0, v.1);
            lemma_hitting(p.0 as int, p.1 as int, n, v.0, v.1);
            assert(hitting_spec(points[i].0 as int, points[i].1 as int).contains(h));
            lemma_all_hits(points, k, h);
            let j = choose|j: int| 0 <= j < hs.len() && hs[j] == h;
            assert(has_speeds(hs[j], v));
        }
    }
    let r = answer(s);
    let speeds = s.speeds;
    let fine = match r {
        Some(a) => a.1 == speeds.len() && exists|v: (i32, i32)|
            #[trigger] speeds.contains(v) && a.0 == peak(v.1 as int) && forall|u: (i32, i32)| #[trigger]
                speeds.contains(u) ==> u.1 <= v.1,
        None => speeds.len() == 0 || exists|v: (i32, i32)|
            #[trigger] speeds.contains(v) && peak(v.1 as int) > i32::MAX,
    };
    match s.best {
        Some(b) => {
            let j = choose|j: int| 0 <= j < hs.len() && (#[trigger] hs[j]).2 == b;
            let v = (hs[j].1, hs[j].2);
            assert(has_speeds(hs[j], v));
            assert(s.speeds.contains(v));
            assert forall|u: (i32, i32)| #[trigger] s.speeds.contains(u) implies u.1 <= v.1 by {
                let i = choose|i: int| 0 <= i < hs.len() && has_speeds(#[trigger] hs[i], u);
                assert(hs[i].2 <= b);
            }
            let w = b as int;
            assert(w * (w + 1) >= 0) by (nonlinear_arith);
            assert(peak(w) >= 0);
            if peak(w) <= i32::MAX {
                assert(r == Some((peak(w) as i32, speeds.len() as usize)));
                assert(speeds.contains(v) && r.unwrap().0 == peak(v.1 as int));
            } else {
                assert(r is None);
                assert(speeds.contains(v) && peak(v.1 as int) > i32::MAX);
            }
            assert(fine);
        },
        None => {
            assert(hs.len() == 0);
            if s.speeds.len() > 0 {
                assert(s.speeds.contains(s.speeds[0]));
            }
            assert(fine);
        },
    }
    assert(speeds.no_duplicates());
}

} // verus!
