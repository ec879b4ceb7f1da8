use crate::reactor::{
    above, below, covers, disjoint, intersect_spec, lemma_without_partitions, piece, remove_spec,
    set_spec, span, total_volume_spec, without_spec, Rect,
};
use vstd::prelude::*;

verus! {

/// The number of cubes that two boxes share.
pub open spec fn shared(a: Rect, b: Rect) -> int {
    match intersect_spec(a, b) {
        Some(r) => r.volume_spec(),
        None => 0,
    }
}

/// The number of cubes that the boxes of `s` share with `rem`, box by
/// box.
pub open spec fn shared_total(s: Seq<Rect>, rem: Rect) -> int
    decreases s.len(),
{
    if s.len() == 0 {
        0
    } else {
        shared_total(s.drop_last(), rem) + shared(s.last(), rem)
    }
}

/// The volumes of two lists of boxes add up to the volume of the two
/// in a row.
pub proof fn lemma_total_concat(s: Seq<Rect>, t: Seq<Rect>)
    ensures
        total_volume_spec(s + t) == total_volume_spec(s) + total_volume_spec(t),
    decreases t.len(),
{
    if t.len() == 0 {
        assert(s + t =~= s);
    } else {
        assert((s + t).drop_last() =~= s + t.drop_last());
        assert((s + t).last() == t.last());
        lemma_total_concat(s, t.drop_last());
    }
}

/// The volume of the slab cut off along one axis, if there is one, is
/// its length along that axis times the two other lengths.
pub proof fn lemma_piece_volume(
    o: Option<(i32, i32)>,
    make: spec_fn((i32, i32)) -> Rect,
    length: int,
    face: int,
)
    requires
        o matches Some(v) ==> make(v).volume_spec() == length * face,
        o is None ==> length == 0,
    ensures
        total_volume_spec(piece(o, make)) == length * face,
{
    match o {
        Some(v) => {
            let s = seq![make(v)];
            assert(s.drop_last() =~= Seq::<Rect>::empty());
            assert(total_volume_spec(s.drop_last()) == 0);
            assert(s.last() == make(v));
        },
        None => {
            assert(0 * face == 0);
        },
    }
}

/// Cutting `rem` out of a box leaves as many cubes as the box has and
/// does not share with `rem`.
pub proof fn lemma_without_volume(a: Rect, rem: Rect)
    ensures
        total_volume_spec(without_spec(a, rem)) == a.volume_spec() - shared(a, rem),
{
    let w = without_spec(a, rem);
    match intersect_spec(a, rem) {
        None => {
            assert(w.drop_last() =~= Seq::<Rect>::empty());
            assert(total_volume_spec(w.drop_last()) == 0);
            assert(w.last() == a);
        },
        Some(r) => {
            let fx = |v: (i32, i32)| Rect { x: v, y: a.y, z: a.z };
            let fy = |v: (i32, i32)| Rect { x: r.x, y: v, z: a.z };
            let fz = |v: (i32, i32)| Rect { x: r.x, y: r.y, z: v };
            let px = piece(below(a.x, r.x), fx);
            let qx = piece(above(a.x, r.x), fx);
            let py = piece(below(a.y, r.y), fy);
            let qy = piece(above(a.y, r.y), fy);
            let pz = piece(below(a.z, r.z), fz);
            let qz = piece(above(a.z, r.z), fz);
            let s2 = px + qx;
            let s3 = s2 + py;
            let s4 = s3 + qy;
            let s5 = s4 + pz;
            assert(w == s5 + qz);
            let big_x = span(a.x);
            let big_y = span(a.y);
            let big_z = span(a.z);
            let x = span(r.x);
            let y = span(r.y);
            let z = span(r.z);
            let bx = r.x.0 - a.x.0;
            let ax = a.x.1 - r.x.1;
            let by = r.y.0 - a.y.0;
            let ay = a.y.1 - r.y.1;
            let bz = r.z.0 - a.z.0;
            let az = a.z.1 - r.z.1;
            assert(bx * big_y * big_z == bx * (big_y * big_z)) by (nonlinear_arith);
            assert(ax * big_y * big_z == ax * (big_y * big_z)) by (nonlinear_arith);
            assert(x * by * big_z == by * (x * big_z)) by (nonlinear_arith);
            assert(x * ay * big_z == ay * (x * big_z)) by (nonlinear_arith);
            assert(x * y * bz == bz * (x * y)) by (nonlinear_arith);
            assert(x * y * az == az * (x * y)) by (nonlinear_arith);
            lemma_piece_volume(below(a.x, r.x), fx, bx, big_y * big_z);
            lemma_piece_volume(above(a.x, r.x), fx, ax, big_y * big_z);
            lemma_piece_volume(below(a.y, r.y), fy, by, x * big_z);
            lemma_piece_volume(above(a.y, r.y), fy, ay, x * big_z);
            lemma_piece_volume(below(a.z, r.z), fz, bz, x * y);
            lemma_piece_volume(above(a.z, r.z), fz, az, x * y);
            lemma_total_concat(px, qx);
            lemma_total_concat(s2, py);
            lemma_total_concat(s3, qy);
            lemma_total_concat(s4, pz);
            lemma_total_concat(s5, qz);
            let p = big_y * big_z;
            let q = x * big_z;
            let t = x * y;
            assert(bx * p + ax * p == big_x * p - x * p) by (nonlinear_arith)
                requires
                    bx + ax + x == big_x,
            ;
            assert(by * q + ay * q == big_y * q - y * q) by (nonlinear_arith)
                requires
                    by + ay + y == big_y,
            ;
            assert(bz * t + az * t == big_z * t - z * t) by (nonlinear_arith)
                requires
                    bz + az + z == big_z,
            ;
            assert(big_x * p == big_x * big_y * big_z) by (nonlinear_arith)
                requires
                    p == big_y * big_z,
            ;
            assert(x * p == big_y * q) by (nonlinear_arith)
                requires
                    p == big_y * big_z,
                    q == x * big_z,
            ;
            assert(y * q == big_z * t) by (nonlinear_arith)
                requires
                    q == x * big_z,
                    t == x * y,
            ;
            assert(z * t == x * y * z) by (nonlinear_arith)
                requires
                    t == x * y,
            ;
        },
    }
}

/// Cutting `rem` out of every box of a list leaves as many cubes as the
/// boxes have and do not share with `rem`.
pub proof fn lemma_remove_volume(s: Seq<Rect>, rem: Rect)
    ensures
        total_volume_spec(remove_spec(s, rem)) == total_volume_spec(s) - shared_total(s, rem),
    decreases s.len(),
{
    if s.len() > 0 {
        lemma_remove_volume(s.drop_last(), rem);
        lemma_without_volume(s.last(), rem);
        lemma_total_concat(remove_spec(s.drop_last(), rem), without_spec(s.last(), rem));
    }
}

/// After a step the boxes hold what they held outside the box of the
/// step, and the whole box of the step where it switches cubes on.
pub proof fn lemma_set_volume(s: Seq<Rect>, r: (bool, Rect))
    ensures
        total_volume_spec(set_spec(s, r)) == total_volume_spec(s) - shared_total(s, r.1) + (if r.0 {
            r.1.volume_spec()
        } else {
            0
        }),
{
    lemma_remove_volume(s, r.1);
    if r.0 {
        let one = seq![r.1];
        assert(one.drop_last() =~= Seq::<Rect>::empty());
        assert(total_volume_spec(one.drop_last()) == 0);
        assert(one.last() == r.1);
        lemma_total_concat(one, remove_spec(s, r.1));
    }
}

/// The number of boxes of `s` that hold the cube at `p`.
pub open spec fn holders(s: Seq<Rect>, p: (int, int, int)) -> int
    decreases s.len(),
{
    if s.len() == 0 {
        0
    } else {
        holders(s.drop_last(), p) + (if s.last().contains(p) {
            1int
        } else {
            0int
        })
    }
}

pub proof fn lemma_holders_concat(s: Seq<Rect>, t: Seq<Rect>, p: (int, int, int))
    ensures
        holders(s + t, p) == holders(s, p) + holders(t, p),
    decreases t.len(),
{
    if t.len() == 0 {
        assert(s + t =~= s);
    } else {
        assert((s + t).drop_last() =~= s + t.drop_last());
        assert((s + t).last() == t.last());
        lemma_holders_concat(s, t.drop_last(), p);
    }
}

/// A cube is covered exactly if some box holds it, and no two of
/// disjoint boxes do.
pub proof fn lemma_holders(s: Seq<Rect>, p: (int, int, int))
    ensures
        0 <= holders(s, p),
        covers(s, p) <==> holders(s, p) >= 1,
        disjoint(s) ==> holders(s, p) <= 1,
    decreases s.len(),
{
    if s.len() > 0 {
        let head = s.drop_last();
        lemma_holders(head, p);
        if covers(s, p) {
            let i = choose|i: int| 0 <= i < s.len() && #[trigger] s[i].contains(p);
            if i < head.len() {
                assert(head[i].contains(p));
            }
        }
        if covers(head, p) {
            let i = choose|i: int| 0 <= i < head.len() && #[trigger] head[i].contains(p);
            assert(s[i].contains(p));
            if disjoint(s) && s.last().contains(p) {
                assert(s[s.len() - 1].contains(p));
            }
        }
        if s.last().contains(p) {
            assert(s[s.len() - 1].contains(p));
        }
        if disjoint(s) {
            assert forall|i: int, j: int, q: (int, int, int)| 0 <= i < j < head.len() implies !(
            #[trigger] head[i].contains(q) && #[trigger] head[j].contains(q)) by {
                assert(!(s[i].contains(q) && s[j].contains(q)));
            }
        }
    }
}

/// Of the boxes that are left of a box without `rem`, one holds a cube
/// of the box outside `rem`, and none any other cube.
pub proof fn lemma_without_holders(a: Rect, rem: Rect, p: (int, int, int))
    ensures
        holders(without_spec(a, rem), p) == (if a.contains(p) && !rem.contains(p) {
            1int
        } else {
            0int
        }),
{
    lemma_without_partitions(a, rem);
    lemma_holders(without_spec(a, rem), p);
    assert(covers(without_spec(a, rem), p) <==> a.contains(p) && !rem.contains(p));
}

/// Cutting `rem` out of every box of a list leaves each cube outside
/// `rem` in as many boxes as held it, and each cube of `rem` in none.
pub proof fn lemma_remove_holders(s: Seq<Rect>, rem: Rect, p: (int, int, int))
    ensures
        holders(remove_spec(s, rem), p) == (if rem.contains(p) {
            0
        } else {
            holders(s, p)
        }),
    decreases s.len(),
{
    if s.len() > 0 {
        lemma_remove_holders(s.drop_last(), rem, p);
        lemma_without_holders(s.last(), rem, p);
        lemma_holders_concat(remove_spec(s.drop_last(), rem), without_spec(s.last(), rem), p);
    }
}

} // verus!
