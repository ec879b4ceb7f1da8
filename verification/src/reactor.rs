use crate::text;
use crate::volumes::{
    holders, lemma_remove_holders, lemma_remove_volume, lemma_set_volume, lemma_without_volume,
    shared, shared_total,
};
use vstd::prelude::*;

verus! {

/// An axis-aligned box of unit cubes; each axis holds its lowest and its
/// highest coordinate, both included.
#[derive(Copy, Clone, Debug)]
pub struct Rect {
    pub x: (i32, i32),
    pub y: (i32, i32),
    pub z: (i32, i32),
}

/// The number of integers from `r.0` to `r.1`, both included.
pub open spec fn span(r: (i32, i32)) -> int {
    r.1 - r.0 + 1
}

pub open spec fn in_span(r: (i32, i32), v: int) -> bool {
    r.0 <= v <= r.1
}

impl Rect {
    /// Whether the box holds at least one cube.
    pub open spec fn inhabited(self) -> bool {
        self.x.0 <= self.x.1 && self.y.0 <= self.y.1 && self.z.0 <= self.z.1
    }

    /// Whether the cube at `p` belongs to the box.
    pub open spec fn contains(self, p: (int, int, int)) -> bool {
        in_span(self.x, p.0) && in_span(self.y, p.1) && in_span(self.z, p.2)
    }

    /// The number of cubes in an inhabited box.
    pub open spec fn volume_spec(self) -> int {
        span(self.x) * span(self.y) * span(self.z)
    }

    /// Counts the cubes of the box.
    pub fn volume(&self) -> (v: u64)
        requires
            self.inhabited(),
            span(self.x) <= 0x8000_0000,
            span(self.y) <= 0x8000_0000,
            span(self.z) <= 0x8000_0000,
            self.volume_spec() <= u64::MAX,
        ensures
            v == self.volume_spec(),
    {
        let x: u64 = (self.x.1 - self.x.0) as u64 + 1;
        let y: u64 = (self.y.1 - self.y.0) as u64 + 1;
        let z: u64 = (self.z.1 - self.z.0) as u64 + 1;
        assert(x * y <= x * y * z) by (nonlinear_arith)
            requires
                x >= 1,
                y >= 1,
                z >= 1,
        ;
        x * y * z
    }
}

/// The overlap of two closed intervals.
pub open spec fn intersect_1d_spec(a: (i32, i32), b: (i32, i32)) -> Option<(i32, i32)> {
    let lo = if a.0 >= b.0 {
        a.0
    } else {
        b.0
    };
    let hi = if a.1 <= b.1 {
        a.1
    } else {
        b.1
    };
    if lo > hi {
        None
    } else {
        Some((lo, hi))
    }
}

/// The overlap of two closed intervals, `None` when they share no integer.
pub fn intersect_1d(a: (i32, i32), b: (i32, i32)) -> (r: Option<(i32, i32)>)
    ensures
        r == intersect_1d_spec(a, b),
        r is Some <==> exists|v: int| in_span(a, v) && in_span(b, v),
        r matches Some(i) ==> forall|v: int| in_span(i, v) <==> in_span(a, v) && in_span(b, v),
{
    let lo: i32 = if a.0 >= b.0 {
        a.0
    } else {
        b.0
    };
    let hi: i32 = if a.1 <= b.1 {
        a.1
    } else {
        b.1
    };
    if lo > hi {
        None
    } else {
        assert(in_span(a, lo as int) && in_span(b, lo as int));
        Some((lo, hi))
    }
}

/// The box shared by `a` and `b`.
pub open spec fn intersect_spec(a: Rect, b: Rect) -> Option<Rect> {
    match (intersect_1d_spec(a.x, b.x), intersect_1d_spec(a.y, b.y), intersect_1d_spec(a.z, b.z)) {
        (Some(x), Some(y), Some(z)) => Some(Rect { x, y, z }),
        _ => None,
    }
}

/// The box shared by `a` and `b`, `None` when they share no cube.
pub fn intersect(a: &Rect, b: &Rect) -> (r: Option<Rect>)
    ensures
        r == intersect_spec(*a, *b),
        r matches Some(i) ==> i.inhabited() && forall|p: (int, int, int)|
            i.contains(p) <==> a.contains(p) && b.contains(p),
        r is None ==> forall|p: (int, int, int)| !(a.contains(p) && b.contains(p)),
{
    let x = match intersect_1d(a.x, b.x) {
        Some(v) => v,
        None => {
            return None;
        },
    };
    let y = match intersect_1d(a.y, b.y) {
        Some(v) => v,
        None => {
            return None;
        },
    };
    let z = match intersect_1d(a.z, b.z) {
        Some(v) => v,
        None => {
            return None;
        },
    };
    Some(Rect { x, y, z })
}

/// The pieces cut off `a` along one axis by the interval `cut`, lying
/// inside `a`'s own interval `own`: what is below the cut, then what is
/// above it.
pub open spec fn below(own: (i32, i32), cut: (i32, i32)) -> Option<(i32, i32)> {
    if own.0 < cut.0 {
        Some((own.0, (cut.0 - 1) as i32))
    } else {
        None
    }
}

pub open spec fn above(own: (i32, i32), cut: (i32, i32)) -> Option<(i32, i32)> {
    if own.1 > cut.1 {
        Some(((cut.1 + 1) as i32, own.1))
    } else {
        None
    }
}

pub open spec fn piece(o: Option<(i32, i32)>, make: spec_fn((i32, i32)) -> Rect) -> Seq<Rect> {
    match o {
        Some(v) => seq![make(v)],
        None => seq![],
    }
}

/// The boxes that `without` returns: `a` itself where it does not meet
/// `rem`; else up to six slabs, cut off first along x (below, then above
/// the overlap), then along y within the overlap's x range, then along z
/// within its x and y ranges.
pub open spec fn without_spec(a: Rect, rem: Rect) -> Seq<Rect> {
    match intersect_spec(a, rem) {
        None => seq![a],
        Some(r) => {
            piece(below(a.x, r.x), |v: (i32, i32)| Rect { x: v, y: a.y, z: a.z })
                + piece(above(a.x, r.x), |v: (i32, i32)| Rect { x: v, y: a.y, z: a.z })
                + piece(below(a.y, r.y), |v: (i32, i32)| Rect { x: r.x, y: v, z: a.z })
                + piece(above(a.y, r.y), |v: (i32, i32)| Rect { x: r.x, y: v, z: a.z })
                + piece(below(a.z, r.z), |v: (i32, i32)| Rect { x: r.x, y: r.y, z: v })
                + piece(above(a.z, r.z), |v: (i32, i32)| Rect { x: r.x, y: r.y, z: v })
        },
    }
}

/// Whether some box of `s` holds the cube at `p`.
pub open spec fn covers(s: Seq<Rect>, p: (int, int, int)) -> bool {
    exists|i: int| 0 <= i < s.len() && #[trigger] s[i].contains(p)
}

/// Whether no cube lies in two boxes of `s`.
pub open spec fn disjoint(s: Seq<Rect>) -> bool {
    forall|i: int, j: int, p: (int, int, int)|
        0 <= i < j < s.len() ==> !(#[trigger] s[i].contains(p) && #[trigger] s[j].contains(p))
}

pub open spec fn all_inhabited(s: Seq<Rect>) -> bool {
    forall|i: int| 0 <= i < s.len() ==> (#[trigger] s[i]).inhabited()
}

pub proof fn lemma_covers_concat(s: Seq<Rect>, t: Seq<Rect>, p: (int, int, int))
    ensures
        covers(s + t, p) <==> covers(s, p) || covers(t, p),
{
    if covers(s, p) {
        let i = choose|i: int| 0 <= i < s.len() && #[trigger] s[i].contains(p);
        assert((s + t)[i].contains(p));
    }
    if covers(t, p) {
        let i = choose|i: int| 0 <= i < t.len() && #[trigger] t[i].contains(p);
        assert((s + t)[s.len() + i].contains(p));
    }
    if covers(s + t, p) {
        let i = choose|i: int| 0 <= i < (s + t).len() && #[trigger] (s + t)[i].contains(p);
        if i < s.len() {
            assert(s[i].contains(p));
        } else {
            assert(t[i - s.len()].contains(p));
        }
    }
}

pub proof fn lemma_disjoint_concat(s: Seq<Rect>, t: Seq<Rect>)
    requires
        disjoint(s),
        disjoint(t),
        forall|p: (int, int, int)| !(covers(s, p) && covers(t, p)),
    ensures
        disjoint(s + t),
{
    let u = s + t;
    assert forall|i: int, j: int, p: (int, int, int)| 0 <= i < j < u.len() implies !(
    #[trigger] u[i].contains(p) && #[trigger] u[j].contains(p)) by {
        if u[i].contains(p) && u[j].contains(p) {
            if j < s.len() {
                assert(s[i].contains(p) && s[j].contains(p));
            } else if i >= s.len() {
                assert(t[i - s.len()].contains(p) && t[j - s.len()].contains(p));
            } else {
                assert(s[i].contains(p));
                assert(t[j - s.len()].contains(p));
                assert(covers(s, p) && covers(t, p));
            }
        }
    }
}

pub proof fn lemma_inhabited_concat(s: Seq<Rect>, t: Seq<Rect>)
    requires
        all_inhabited(s),
        all_inhabited(t),
    ensures
        all_inhabited(s + t),
{
    let u = s + t;
    assert forall|i: int| 0 <= i < u.len() implies (#[trigger] u[i]).inhabited() by {
        if i < s.len() {
            assert(s[i].inhabited());
        } else {
            assert(t[i - s.len()].inhabited());
        }
    }
}

/// Cutting `rem` out of `a` leaves disjoint boxes that together hold exactly
/// the cubes of `a` that are not in `rem`; none of them is empty when `a`
/// is not.
pub proof fn lemma_without_partitions(a: Rect, rem: Rect)
    ensures
        forall|p: (int, int, int)| #[trigger]
            covers(without_spec(a, rem), p) <==> a.contains(p) && !rem.contains(p),
        disjoint(without_spec(a, rem)),
        a.inhabited() ==> all_inhabited(without_spec(a, rem)),
{
    let w = without_spec(a, rem);
    match intersect_spec(a, rem) {
        None => {
            assert(w[0] == a);
            assert forall|p: (int, int, int)| #[trigger]
                covers(w, p) <==> a.contains(p) && !rem.contains(p) by {
                if a.contains(p) {
                    assert(w[0].contains(p));
                }
            }
        },
        Some(r) => {
            let px = piece(below(a.x, r.x), |v: (i32, i32)| Rect { x: v, y: a.y, z: a.z });
            let qx = piece(above(a.x, r.x), |v: (i32, i32)| Rect { x: v, y: a.y, z: a.z });
            let py = piece(below(a.y, r.y), |v: (i32, i32)| Rect { x: r.x, y: v, z: a.z });
            let qy = piece(above(a.y, r.y), |v: (i32, i32)| Rect { x: r.x, y: v, z: a.z });
            let pz = piece(below(a.z, r.z), |v: (i32, i32)| Rect { x: r.x, y: r.y, z: v });
            let qz = piece(above(a.z, r.z), |v: (i32, i32)| Rect { x: r.x, y: r.y, z: v });
            let s2 = px + qx;
            let s3 = s2 + py;
            let s4 = s3 + qy;
            let s5 = s4 + pz;
            assert(w == s5 + qz);
            assert forall|p: (int, int, int)|
                (covers(px, p) <==> a.x.0 < r.x.0 && a.x.0 <= p.0 < r.x.0 && in_span(a.y, p.1)
                    && in_span(a.z, p.2)) && (covers(qx, p) <==> a.x.1 > r.x.1 && r.x.1 < p.0
                    <= a.x.1 && in_span(a.y, p.1) && in_span(a.z, p.2)) && (covers(py, p)
                    <==> a.y.0 < r.y.0 && a.y.0 <= p.1 < r.y.0 && in_span(r.x, p.0) && in_span(
                    a.z,
                    p.2,
                )) && (covers(qy, p) <==> a.y.1 > r.y.1 && r.y.1 < p.1 <= a.y.1 && in_span(
                    r.x,
                    p.0,
                ) && in_span(a.z, p.2)) && (covers(pz, p) <==> a.z.0 < r.z.0 && a.z.0 <= p.2
                    < r.z.0 && in_span(r.x, p.0) && in_span(r.y, p.1)) && (covers(qz, p)
                    <==> a.z.1 > r.z.1 && r.z.1 < p.2 <= a.z.1 && in_span(r.x, p.0) && in_span(
                    r.y,
                    p.1,
                )) by {
                if px.len() > 0 {
                    assert(covers(px, p) <==> px[0].contains(p));
                }
                if qx.len() > 0 {
                    assert(covers(qx, p) <==> qx[0].contains(p));
                }
                if py.len() > 0 {
                    assert(covers(py, p) <==> py[0].contains(p));
                }
                if qy.len() > 0 {
                    assert(covers(qy, p) <==> qy[0].contains(p));
                }
                if pz.len() > 0 {
                    assert(covers(pz, p) <==> pz[0].contains(p));
                }
                if qz.len() > 0 {
                    assert(covers(qz, p) <==> qz[0].contains(p));
                }
            }
            assert forall|p: (int, int, int)|
                (covers(s2, p) <==> covers(px, p) || covers(qx, p)) && (covers(s3, p) <==> covers(
                    s2,
                    p,
                ) || covers(py, p)) && (covers(s4, p) <==> covers(s3, p) || covers(qy, p)) && (
                covers(s5, p) <==> covers(s4, p) || covers(pz, p)) && (covers(w, p) <==> covers(
                    s5,
                    p,
                ) || covers(qz, p)) by {
                lemma_covers_concat(px, qx, p);
                lemma_covers_concat(s2, py, p);
                lemma_covers_concat(s3, qy, p);
                lemma_covers_concat(s4, pz, p);
                lemma_covers_concat(s5, qz, p);
            }
            assert forall|p: (int, int, int)| #[trigger]
                covers(w, p) <==> a.contains(p) && !rem.contains(p) by {
                assert(covers(s2, p) <==> covers(px, p) || covers(qx, p));
            }
            assert(disjoint(px) && disjoint(qx) && disjoint(py) && disjoint(qy) && disjoint(pz)
                && disjoint(qz));
            lemma_disjoint_concat(px, qx);
            lemma_disjoint_concat(s2, py);
            lemma_disjoint_concat(s3, qy);
            lemma_disjoint_concat(s4, pz);
            lemma_disjoint_concat(s5, qz);
            if a.inhabited() {
                lemma_inhabited_concat(px, qx);
                lemma_inhabited_concat(s2, py);
                lemma_inhabited_concat(s3, qy);
                lemma_inhabited_concat(s4, pz);
                lemma_inhabited_concat(s5, qz);
            }
        },
    }
}

/// Cuts `rem` out of `a`: the result holds disjoint boxes that together
/// cover exactly the cubes of `a` that are not in `rem`.
pub fn without(a: &Rect, rem: &Rect) -> (ls: Vec<Rect>)
    ensures
        ls@ == without_spec(*a, *rem),
        forall|p: (int, int, int)| #[trigger]
            covers(ls@, p) <==> a.contains(p) && !rem.contains(p),
        disjoint(ls@),
        a.inhabited() ==> all_inhabited(ls@),
        total_volume_spec(ls@) == a.volume_spec() - shared(*a, *rem),
{
    proof {
        lemma_without_partitions(*a, *rem);
        lemma_without_volume(*a, *rem);
    }
    let cut = match intersect(a, rem) {
        Some(v) => v,
        None => {
            let ls = vec![*a];
            assert(ls@ =~= seq![*a]);
            return ls;
        },
    };
    let ghost a0 = *a;
    let mut ls: Vec<Rect> = Vec::new();
    let mut a = *a;
    if a.x.0 < cut.x.0 {
        ls.push(Rect { x: (a.x.0, cut.x.0 - 1), y: a.y, z: a.z });
        a.x.0 = cut.x.0;
    }
    let ghost s1 = ls@;
    if a.x.1 > cut.x.1 {
        ls.push(Rect { x: (cut.x.1 + 1, a.x.1), y: a.y, z: a.z });
        a.x.1 = cut.x.1;
    }
    let ghost s2 = ls@;
    if a.y.0 < cut.y.0 {
        ls.push(Rect { x: a.x, y: (a.y.0, cut.y.0 - 1), z: a.z });
        a.y.0 = cut.y.0;
    }
    let ghost s3 = ls@;
    if a.y.1 > cut.y.1 {
        ls.push(Rect { x: a.x, y: (cut.y.1 + 1, a.y.1), z: a.z });
        a.y.1 = cut.y.1;
    }
    let ghost s4 = ls@;
    if a.z.0 < cut.z.0 {
        ls.push(Rect { x: a.x, y: a.y, z: (a.z.0, cut.z.0 - 1) });
        a.z.0 = cut.z.0;
    }
    let ghost s5 = ls@;
    if a.z.1 > cut.z.1 {
        ls.push(Rect { x: a.x, y: a.y, z: (cut.z.1 + 1, a.z.1) });
    }
    proof {
        let px = piece(below(a0.x, cut.x), |v: (i32, i32)| Rect { x: v, y: a0.y, z: a0.z });
        let qx = piece(above(a0.x, cut.x), |v: (i32, i32)| Rect { x: v, y: a0.y, z: a0.z });
        let py = piece(below(a0.y, cut.y), |v: (i32, i32)| Rect { x: cut.x, y: v, z: a0.z });
        let qy = piece(above(a0.y, cut.y), |v: (i32, i32)| Rect { x: cut.x, y: v, z: a0.z });
        let pz = piece(below(a0.z, cut.z), |v: (i32, i32)| Rect { x: cut.x, y: cut.y, z: v });
        let qz = piece(above(a0.z, cut.z), |v: (i32, i32)| Rect { x: cut.x, y: cut.y, z: v });
        assert(s1 =~= px);
        assert(s2 =~= px + qx);
        assert(s3 =~= px + qx + py);
        assert(s4 =~= px + qx + py + qy);
        assert(s5 =~= px + qx + py + qy + pz);
        assert(ls@ =~= px + qx + py + qy + pz + qz);
    }
    ls
}

/// The region of the first part: coordinates from -50 to 50 on each axis.
pub open spec fn small_region() -> Rect {
    Rect { x: (-50i32, 50i32), y: (-50i32, 50i32), z: (-50i32, 50i32) }
}

/// The part of `a` inside the small region.
pub fn filter_p1(a: &Rect) -> (r: Option<Rect>)
    ensures
        r == intersect_spec(*a, small_region()),
        r matches Some(i) ==> i.inhabited() && forall|p: (int, int, int)|
            i.contains(p) <==> a.contains(p) && small_region().contains(p),
        r is None ==> forall|p: (int, int, int)| !(a.contains(p) && small_region().contains(p)),
{
    intersect(a, &Rect { x: (-50, 50), y: (-50, 50), z: (-50, 50) })
}

/// The number of cubes of `rect` inside the small region.
pub open spec fn volume_within_p1_spec(rect: Rect) -> int {
    match intersect_spec(rect, small_region()) {
        Some(r) => r.volume_spec(),
        None => 0,
    }
}

/// Counts the cubes of `rect` inside the small region.
pub fn volume_within_p1(rect: &Rect) -> (v: u64)
    ensures
        v == volume_within_p1_spec(*rect),
        v <= 101 * 101 * 101,
{
    match filter_p1(rect) {
        Some(r) => {
            assert(r.volume_spec() <= 101 * 101 * 101 && r.volume_spec() >= 0) by (nonlinear_arith)
                requires
                    1 <= span(r.x) <= 101,
                    1 <= span(r.y) <= 101,
                    1 <= span(r.z) <= 101,
                    r.volume_spec() == span(r.x) * span(r.y) * span(r.z),
            ;
            r.volume()
        },
        None => 0,
    }
}

/// What is left of the boxes of `s`, in their order, once `rem` is cut out
/// of each.
pub open spec fn remove_spec(s: Seq<Rect>, rem: Rect) -> Seq<Rect>
    decreases s.len(),
{
    if s.len() == 0 {
        seq![]
    } else {
        remove_spec(s.drop_last(), rem) + without_spec(s.last(), rem)
    }
}

/// Cutting `rem` out of every box of `s` leaves exactly the cubes that `s`
/// held outside `rem`, and keeps disjoint boxes disjoint.
pub proof fn lemma_remove(s: Seq<Rect>, rem: Rect)
    ensures
        forall|p: (int, int, int)| #[trigger]
            covers(remove_spec(s, rem), p) <==> covers(s, p) && !rem.contains(p),
        disjoint(s) ==> disjoint(remove_spec(s, rem)),
        all_inhabited(s) ==> all_inhabited(remove_spec(s, rem)),
    decreases s.len(),
{
    if s.len() == 0 {
    } else {
        let head = s.drop_last();
        let w = without_spec(s.last(), rem);
        lemma_remove(head, rem);
        lemma_without_partitions(s.last(), rem);
        assert(s =~= head + seq![s.last()]);
        assert forall|p: (int, int, int)| #[trigger]
            covers(remove_spec(s, rem), p) <==> covers(s, p) && !rem.contains(p) by {
            lemma_covers_concat(remove_spec(head, rem), w, p);
            lemma_covers_concat(head, seq![s.last()], p);
            assert(covers(seq![s.last()], p) <==> s.last().contains(p)) by {
                if s.last().contains(p) {
                    assert(seq![s.last()][0].contains(p));
                }
            }
            assert(covers(w, p) <==> s.last().contains(p) && !rem.contains(p));
        }
        if disjoint(s) {
            assert(disjoint(head)) by {
                assert forall|i: int, j: int, p: (int, int, int)|
                    0 <= i < j < head.len() implies !(#[trigger] head[i].contains(p)
                    && #[trigger] head[j].contains(p)) by {
                    assert(head[i] == s[i] && head[j] == s[j]);
                }
            }
            assert forall|p: (int, int, int)|
                !(covers(remove_spec(head, rem), p) && covers(w, p)) by {
                if covers(remove_spec(head, rem), p) && covers(w, p) {
                    assert(covers(head, p));
                    let i = choose|i: int| 0 <= i < head.len() && #[trigger] head[i].contains(p);
                    assert(s[i].contains(p));
                    assert(s[s.len() - 1].contains(p));
                }
            }
            lemma_disjoint_concat(remove_spec(head, rem), w);
        }
        if all_inhabited(s) {
            assert(all_inhabited(head)) by {
                assert forall|i: int| 0 <= i < head.len() implies (#[trigger] head[i]).inhabited() by {
                    assert(head[i] == s[i]);
                }
            }
            assert(s[s.len() - 1].inhabited());
            lemma_inhabited_concat(remove_spec(head, rem), w);
        }
    }
}

/// Cuts `rem` out of every box of the list, keeping the order of what is
/// left.
pub fn remove_intersecting(ls: &mut Vec<Rect>, rem: &Rect)
    ensures
        final(ls)@ == remove_spec(old(ls)@, *rem),
        forall|p: (int, int, int)| #[trigger]
            covers(final(ls)@, p) <==> covers(old(ls)@, p) && !rem.contains(p),
        disjoint(old(ls)@) ==> disjoint(final(ls)@),
        all_inhabited(old(ls)@) ==> all_inhabited(final(ls)@),
        total_volume_spec(final(ls)@) == total_volume_spec(old(ls)@) - shared_total(old(ls)@, *rem),
        forall|p: (int, int, int)| #[trigger]
            holders(final(ls)@, p) == (if rem.contains(p) {
                0
            } else {
                holders(old(ls)@, p)
            }),
{
    let mut out: Vec<Rect> = Vec::new();
    let mut i: usize = 0;
    while i < ls.len()
        invariant
            i <= ls.len(),
            *ls == *old(ls),
            out@ == remove_spec(ls@.subrange(0, i as int), *rem),
        decreases ls.len() - i,
    {
        let mut pieces = without(&ls[i], rem);
        proof {
            assert(ls@.subrange(0, i + 1).drop_last() =~= ls@.subrange(0, i as int));
            assert(ls@.subrange(0, i + 1).last() == ls@[i as int]);
        }
        out.append(&mut pieces);
        i = i + 1;
    }
    proof {
        assert(ls@.subrange(0, i as int) =~= ls@);
        lemma_remove(ls@, *rem);
        lemma_remove_volume(ls@, *rem);
        assert forall|p: (int, int, int)| #[trigger]
            holders(out@, p) == (if rem.contains(p) {
                0
            } else {
                holders(ls@, p)
            }) by {
            lemma_remove_holders(ls@, *rem, p);
        }
    }
    *ls = out;
}

/// The list after one step: `r.1` is cut out of every box, and stands in
/// front as a box of its own when the step switches cubes on.
pub open spec fn set_spec(s: Seq<Rect>, r: (bool, Rect)) -> Seq<Rect> {
    if r.0 {
        seq![r.1] + remove_spec(s, r.1)
    } else {
        remove_spec(s, r.1)
    }
}

/// Applies one step to the list of lit boxes. Afterwards a cube is lit
/// exactly if the step switched it on, or if it was lit before and the step
/// did not touch it.
pub fn set_intersecting(ls: &mut Vec<Rect>, r: (bool, Rect))
    ensures
        final(ls)@ == set_spec(old(ls)@, r),
        forall|p: (int, int, int)| #[trigger]
            covers(final(ls)@, p) <==> (if r.1.contains(p) {
                r.0
            } else {
                covers(old(ls)@, p)
            }),
        disjoint(old(ls)@) ==> disjoint(final(ls)@),
        total_volume_spec(final(ls)@) == total_volume_spec(old(ls)@) - shared_total(old(ls)@, r.1)
            + (if r.0 {
            r.1.volume_spec()
        } else {
            0
        }),
{
    proof {
        lemma_set_volume(ls@, r);
    }
    remove_intersecting(ls, &r.1);
    if r.0 {
        let ghost rest = ls@;
        ls.insert(0, r.1);
        proof {
            assert(ls@ =~= seq![r.1] + rest);
            assert forall|p: (int, int, int)| #[trigger]
                covers(ls@, p) <==> (r.1.contains(p) || covers(rest, p)) by {
                lemma_covers_concat(seq![r.1], rest, p);
                if r.1.contains(p) {
                    assert(seq![r.1][0].contains(p));
                }
            }
            if disjoint(old(ls)@) {
                assert forall|p: (int, int, int)| !(covers(seq![r.1], p) && covers(rest, p)) by {
                    if covers(seq![r.1], p) {
                        assert(r.1.contains(p));
                    }
                }
                lemma_disjoint_concat(seq![r.1], rest);
            }
        }
    }
}

/// The interval that a text of the form `x=A..B` gives: its first two
/// characters are passed over, and `A` and `B` are read as `i32`.
pub open spec fn parse_eq_spec(s: Seq<char>) -> Option<(i32, i32)> {
    if s.len() < 2 {
        None
    } else {
        match text::split_once_at_spec(s.subrange(2, s.len() as int), seq!['.', '.']) {
            Some((a, b)) => match (text::i32_of(a), text::i32_of(b)) {
                (Some(lo), Some(hi)) => Some((lo, hi)),
                _ => None,
            },
            None => None,
        }
    }
}

/// The step that a line of the form `on x=A..B,y=C..D,z=E..F` (or `off`
/// in place of `on`) gives.
pub open spec fn parse_line_spec(s: Seq<char>) -> Option<(bool, Rect)> {
    let on = text::matches_at(s, seq!['o', 'n', ' '], 0);
    let off = text::matches_at(s, seq!['o', 'f', 'f', ' '], 0);
    if !on && !off {
        None
    } else {
        let rest = if on {
            s.subrange(3, s.len() as int)
        } else {
            s.subrange(4, s.len() as int)
        };
        match text::split_once_spec(rest, ',') {
            Some((x, yz)) => match text::split_once_spec(yz, ',') {
                Some((y, z)) => match (parse_eq_spec(x), parse_eq_spec(y), parse_eq_spec(z)) {
                    (Some(x), Some(y), Some(z)) => Some((on, Rect { x, y, z })),
                    _ => None,
                },
                None => None,
            },
            None => None,
        }
    }
}

fn parse_eq(s: &Vec<char>) -> (r: Option<(i32, i32)>)
    ensures
        r == parse_eq_spec(s@),
{
    if s.len() < 2 {
        return None;
    }
    let body = text::slice(s, 2, s.len());
    let dots: Vec<char> = vec!['.', '.'];
    assert(dots@ =~= seq!['.', '.']);
    match text::split_once_at(&body, &dots) {
        Some((a, b)) => {
            match (text::parse_i32(&a), text::parse_i32(&b)) {
                (Some(lo), Some(hi)) => Some((lo, hi)),
                _ => None,
            }
        },
        None => None,
    }
}

/// Whether a line begins with one of the two words of a step, `on ` or
/// `off `.
pub open spec fn names_a_step(s: Seq<char>) -> bool {
    text::matches_at(s, seq!['o', 'n', ' '], 0) || text::matches_at(s, seq!['o', 'f', 'f', ' '], 0)
}

/// Whether a line begins with `on ` or `off `.
pub fn begins_a_step(s: &Vec<char>) -> (r: bool)
    ensures
        r == names_a_step(s@),
{
    let on_word: Vec<char> = vec!['o', 'n', ' '];
    let off_word: Vec<char> = vec!['o', 'f', 'f', ' '];
    assert(on_word@ =~= seq!['o', 'n', ' ']);
    assert(off_word@ =~= seq!['o', 'f', 'f', ' ']);
    text::starts_with(s, &on_word) || text::starts_with(s, &off_word)
}

/// Reads one step from a line that begins with `on ` or `off `. `None`
/// when what follows the word is not of the expected form.
pub fn parse_line(s: &Vec<char>) -> (r: Option<(bool, Rect)>)
    requires
        names_a_step(s@),
    ensures
        r.is_some() == parse_line_spec(s@).is_some(),
        r matches Some(v) ==> v.0 == parse_line_spec(s@).unwrap().0 && v.1 == parse_line_spec(
            s@,
        ).unwrap().1,
{
    let on_word: Vec<char> = vec!['o', 'n', ' '];
    assert(on_word@ =~= seq!['o', 'n', ' ']);
    let on = text::starts_with(s, &on_word);
    let rest = if on {
        text::slice(s, 3, s.len())
    } else {
        text::slice(s, 4, s.len())
    };
    let (x, yz) = match text::split_once(&rest, ',') {
        Some(v) => v,
        None => {
            return None;
        },
    };
    let (y, z) = match text::split_once(&yz, ',') {
        Some(v) => v,
        None => {
            return None;
        },
    };
    match (parse_eq(&x), parse_eq(&y), parse_eq(&z)) {
        (Some(x), Some(y), Some(z)) => Some((on, Rect { x, y, z })),
        _ => None,
    }
}

/// Reads the steps, one from each line. `None` when some line is not of the
/// expected form.
pub fn read_data(lines: &Vec<Vec<char>>) -> (r: Option<Vec<(bool, Rect)>>)
    ensures
        r is Some <==> forall|i: int| 0 <= i < lines.len() ==> parse_line_spec(#[trigger] lines[i]@) is Some,
        r matches Some(v) ==> v.len() == lines.len() && forall|i: int|
            0 <= i < v.len() ==> Some(#[trigger] v[i]) == parse_line_spec(lines[i]@),
{
    let mut out: Vec<(bool, Rect)> = Vec::new();
    let mut i: usize = 0;
    while i < lines.len()
        invariant
            i <= lines.len(),
            out.len() == i,
            forall|k: int| 0 <= k < i ==> parse_line_spec(#[trigger] lines[k]@) is Some,
            forall|k: int| 0 <= k < i ==> Some(#[trigger] out[k]) == parse_line_spec(lines[k]@),
        decreases lines.len() - i,
    {
        if !begins_a_step(&lines[i]) {
            return None;
        }
        match parse_line(&lines[i]) {
            Some(step) => {
                out.push(step);
            },
            None => {
                return None;
            },
        }
        i = i + 1;
    }
    Some(out)
}

/// The list of lit boxes after the steps of `steps`, applied in order to an
/// empty list.
pub open spec fn reboot_spec(steps: Seq<(bool, Rect)>) -> Seq<Rect>
    decreases steps.len(),
{
    if steps.len() == 0 {
        seq![]
    } else {
        set_spec(reboot_spec(steps.drop_last()), steps.last())
    }
}

/// Whether the cube at `p` is lit after the steps of `steps`: the last step
/// that touches it decides.
pub open spec fn lit_after(steps: Seq<(bool, Rect)>, p: (int, int, int)) -> bool
    decreases steps.len(),
{
    if steps.len() == 0 {
        false
    } else if steps.last().1.contains(p) {
        steps.last().0
    } else {
        lit_after(steps.drop_last(), p)
    }
}

/// Applies the steps in order. The boxes of the result are disjoint, and
/// hold exactly the cubes that are lit in the end.
pub fn reboot(steps: &Vec<(bool, Rect)>) -> (ls: Vec<Rect>)
    ensures
        ls@ == reboot_spec(steps@),
        disjoint(ls@),
        forall|p: (int, int, int)| #[trigger] covers(ls@, p) <==> lit_after(steps@, p),
{
    let mut ls: Vec<Rect> = Vec::new();
    let mut i: usize = 0;
    while i < steps.len()
        invariant
            i <= steps.len(),
            ls@ == reboot_spec(steps@.subrange(0, i as int)),
            disjoint(ls@),
            forall|p: (int, int, int)| #[trigger]
                covers(ls@, p) <==> lit_after(steps@.subrange(0, i as int), p),
        decreases steps.len() - i,
    {
        proof {
            assert(steps@.subrange(0, i + 1).drop_last() =~= steps@.subrange(0, i as int));
            assert(steps@.subrange(0, i + 1).last() == steps@[i as int]);
        }
        set_intersecting(&mut ls, steps[i]);
        i = i + 1;
    }
    assert(steps@.subrange(0, i as int) =~= steps@);
    ls
}

/// The sum of the volumes of the boxes of `s`.
pub open spec fn total_volume_spec(s: Seq<Rect>) -> int
    decreases s.len(),
{
    if s.len() == 0 {
        0
    } else {
        total_volume_spec(s.drop_last()) + s.last().volume_spec()
    }
}

/// The sum, over the boxes of `s`, of the volume inside the small region.
pub open spec fn total_volume_p1_spec(s: Seq<Rect>) -> int
    decreases s.len(),
{
    if s.len() == 0 {
        0
    } else {
        total_volume_p1_spec(s.drop_last()) + volume_within_p1_spec(s.last())
    }
}

/// A box whose volume `Rect::volume` can compute.
pub open spec fn measurable(r: Rect) -> bool {
    r.inhabited() && span(r.x) <= 0x8000_0000 && span(r.y) <= 0x8000_0000 && span(r.z)
        <= 0x8000_0000 && r.volume_spec() <= u64::MAX
}

pub proof fn lemma_volume_nonneg(r: Rect)
    requires
        r.inhabited(),
    ensures
        r.volume_spec() >= 1,
{
    assert(span(r.x) * span(r.y) * span(r.z) >= 1) by (nonlinear_arith)
        requires
            span(r.x) >= 1,
            span(r.y) >= 1,
            span(r.z) >= 1,
    ;
}

pub proof fn lemma_inhabited_drop_last(s: Seq<Rect>)
    requires
        all_inhabited(s),
        s.len() > 0,
    ensures
        all_inhabited(s.drop_last()),
        s.last().inhabited(),
{
    assert(s[s.len() - 1].inhabited());
    assert forall|k: int| 0 <= k < s.drop_last().len() implies (#[trigger] s.drop_last()[
        k
    ]).inhabited() by {
        assert(s[k].inhabited());
    }
}

pub proof fn lemma_total_volume_nonneg(s: Seq<Rect>)
    requires
        all_inhabited(s),
    ensures
        0 <= total_volume_spec(s),
    decreases s.len(),
{
    if s.len() > 0 {
        lemma_inhabited_drop_last(s);
        lemma_total_volume_nonneg(s.drop_last());
        lemma_volume_nonneg(s.last());
    }
}

pub proof fn lemma_total_volume_prefix(s: Seq<Rect>, i: int)
    requires
        all_inhabited(s),
        0 <= i <= s.len(),
    ensures
        0 <= total_volume_spec(s.subrange(0, i)) <= total_volume_spec(s),
    decreases s.len() - i,
{
    if i == s.len() {
        assert(s.subrange(0, i) =~= s);
        lemma_total_volume_nonneg(s);
    } else {
        lemma_inhabited_drop_last(s);
        lemma_total_volume_prefix(s.drop_last(), i);
        assert(s.drop_last().subrange(0, i) =~= s.subrange(0, i));
        lemma_volume_nonneg(s.last());
    }
}

/// Adds up the volumes of the boxes of `ls`.
pub fn total_volume(ls: &Vec<Rect>) -> (v: u64)
    requires
        forall|i: int| 0 <= i < ls.len() ==> measurable(#[trigger] ls[i]),
        total_volume_spec(ls@) <= u64::MAX,
    ensures
        v == total_volume_spec(ls@),
{
    let mut sum: u64 = 0;
    let mut i: usize = 0;
    while i < ls.len()
        invariant
            i <= ls.len(),
            forall|k: int| 0 <= k < ls.len() ==> measurable(#[trigger] ls[k]),
            total_volume_spec(ls@) <= u64::MAX,
            sum == total_volume_spec(ls@.subrange(0, i as int)),
        decreases ls.len() - i,
    {
        proof {
            assert(ls@.subrange(0, i + 1).drop_last() =~= ls@.subrange(0, i as int));
            assert(ls@.subrange(0, i + 1).last() == ls@[i as int]);
            assert(all_inhabited(ls@)) by {
                assert forall|k: int| 0 <= k < ls@.len() implies (#[trigger] ls@[k]).inhabited() by {
                    assert(measurable(ls[k]));
                }
            }
            lemma_total_volume_prefix(ls@, i + 1);
        }
        assert(measurable(ls[i as int]));
        sum = sum + ls[i].volume();
        i = i + 1;
    }
    assert(ls@.subrange(0, i as int) =~= ls@);
    sum
}

pub proof fn lemma_volume_within_p1_nonneg(r: Rect)
    ensures
        0 <= volume_within_p1_spec(r),
{
    match intersect_spec(r, small_region()) {
        Some(i) => {
            lemma_volume_nonneg(i);
        },
        None => {},
    }
}

pub proof fn lemma_total_volume_p1_nonneg(s: Seq<Rect>)
    ensures
        0 <= total_volume_p1_spec(s),
    decreases s.len(),
{
    if s.len() > 0 {
        lemma_total_volume_p1_nonneg(s.drop_last());
        lemma_volume_within_p1_nonneg(s.last());
    }
}

pub proof fn lemma_total_volume_p1_prefix(s: Seq<Rect>, i: int)
    requires
        0 <= i <= s.len(),
    ensures
        0 <= total_volume_p1_spec(s.subrange(0, i)) <= total_volume_p1_spec(s),
    decreases s.len() - i,
{
    if i == s.len() {
        assert(s.subrange(0, i) =~= s);
        lemma_total_volume_p1_nonneg(s);
    } else {
        lemma_total_volume_p1_prefix(s.drop_last(), i);
        assert(s.drop_last().subrange(0, i) =~= s.subrange(0, i));
        lemma_volume_within_p1_nonneg(s.last());
    }
}

/// Adds up, over the boxes of `ls`, the volume inside the small region.
pub fn total_volume_p1(ls: &Vec<Rect>) -> (v: u64)
    requires
        total_volume_p1_spec(ls@) <= u64::MAX,
    ensures
        v == total_volume_p1_spec(ls@),
{
    let mut sum: u64 = 0;
    let mut i: usize = 0;
    while i < ls.len()
        invariant
            i <= ls.len(),
            total_volume_p1_spec(ls@) <= u64::MAX,
            sum == total_volume_p1_spec(ls@.subrange(0, i as int)),
        decreases ls.len() - i,
    {
        proof {
            assert(ls@.subrange(0, i + 1).drop_last() =~= ls@.subrange(0, i as int));
            assert(ls@.subrange(0, i + 1).last() == ls@[i as int]);
            lemma_total_volume_p1_prefix(ls@, i + 1);
        }
        sum = sum + volume_within_p1(&ls[i]);
        i = i + 1;
    }
    assert(ls@.subrange(0, i as int) =~= ls@);
    sum
}

} // verus!
