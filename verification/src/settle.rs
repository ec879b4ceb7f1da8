use crate::snailfish::{
    explode_all, explode_spec, flat_at, height, leftmost_spec, lemma_edges, lemma_explode,
    lemma_explode_all, lemma_flat, lemma_split, reducible, rightmost_spec, round, settles_in,
    split_spec, total, with_leftmost, with_rightmost, SnailNum,
};
use vstd::prelude::*;

verus! {

/// The power of two with exponent `n`.
pub open spec fn pow2(n: nat) -> int
    decreases n,
{
    if n == 0 {
        1
    } else {
        2 * pow2((n - 1) as nat)
    }
}

pub proof fn lemma_pow2_rises(a: nat, b: nat)
    requires
        a <= b,
    ensures
        0 < pow2(a) <= pow2(b),
    decreases b,
{
    if a < b {
        lemma_pow2_rises(a, (b - 1) as nat);
    } else if a > 0 {
        lemma_pow2_rises((a - 1) as nat, (a - 1) as nat);
    }
}

/// The pull of a number to the right: each plain number counts with the
/// weight of the place where it stands. The number lies over the places
/// from `lo` on, `size` of them; the left part of a pair lies over the
/// first half of the places of the pair and the right part over the
/// second half; a plain number counts with two to the power of its first
/// place.
pub open spec fn pull(t: SnailNum, lo: nat, size: nat) -> int
    decreases t,
{
    match t {
        SnailNum::Lit(n) => n * pow2(lo),
        SnailNum::Pair(a, b) => pull(*a, lo, size / 2) + pull(*b, lo + size / 2, size / 2),
    }
}

pub proof fn lemma_pull_bounds(t: SnailNum, lo: nat, size: nat)
    ensures
        0 <= pull(t, lo, size) <= total(t) * pow2(lo + size),
        0 <= total(t),
    decreases t,
{
    match t {
        SnailNum::Lit(n) => {
            lemma_pow2_rises(lo, lo + size);
            let a = pow2(lo);
            let b = pow2(lo + size);
            assert(0 <= n * a <= n * b) by (nonlinear_arith)
                requires
                    0 <= n,
                    0 < a <= b,
            ;
        },
        SnailNum::Pair(a, b) => {
            let h = size / 2;
            lemma_pull_bounds(*a, lo, h);
            lemma_pull_bounds(*b, lo + h, h);
            lemma_pow2_rises(lo + h, lo + size);
            lemma_pow2_rises(lo + h + h, lo + size);
            let ta = total(*a);
            let tb = total(*b);
            let w1 = pow2(lo + h);
            let w2 = pow2(lo + h + h);
            let w = pow2(lo + size);
            assert(ta * w1 + tb * w2 <= (ta + tb) * w) by (nonlinear_arith)
                requires
                    0 <= ta,
                    0 <= tb,
                    0 < w1 <= w,
                    0 < w2 <= w,
            ;
        },
    }
}

/// Raising the leftmost plain number raises the pull by the weight of
/// the first place.
pub proof fn lemma_pull_leftmost(t: SnailNum, v: u32, lo: nat, size: nat)
    ensures
        pull(with_leftmost(t, v), lo, size) == pull(t, lo, size) + (v - leftmost_spec(t)) * pow2(
            lo,
        ),
    decreases t,
{
    match t {
        SnailNum::Lit(n) => {
            let w = pow2(lo);
            assert(v * w == n * w + (v - n) * w) by (nonlinear_arith);
        },
        SnailNum::Pair(a, b) => {
            lemma_pull_leftmost(*a, v, lo, size / 2);
        },
    }
}

/// Raising the rightmost plain number does not lower the pull.
pub proof fn lemma_pull_rightmost(t: SnailNum, v: u32, lo: nat, size: nat)
    requires
        v >= rightmost_spec(t),
    ensures
        pull(with_rightmost(t, v), lo, size) >= pull(t, lo, size),
    decreases t,
{
    match t {
        SnailNum::Lit(n) => {
            lemma_pow2_rises(lo, lo);
            let w = pow2(lo);
            assert(v * w >= n * w) by (nonlinear_arith)
                requires
                    v >= n,
                    w > 0,
            ;
        },
        SnailNum::Pair(a, b) => {
            lemma_pull_rightmost(*b, v, lo + size / 2, size / 2);
        },
    }
}

/// Where no pair is nested inside `d` pairs, none explodes.
pub proof fn lemma_calm(t: SnailNum, d: nat)
    requires
        height(t) <= d,
    ensures
        explode_spec(t, d) is None,
    decreases t,
{
    match t {
        SnailNum::Lit(_) => {},
        SnailNum::Pair(a, b) => {
            lemma_calm(*a, (d - 1) as nat);
            lemma_calm(*b, (d - 1) as nat);
        },
    }
}

/// A split in a number whose pairs are nested no deeper than `d`,
/// followed by the explosion that it may bring about: the sum of the
/// plain numbers stays but for what leaves the number, no pair is nested
/// deeper than `d` afterwards, and the pull rises when that which leaves
/// to the right is counted at the first place behind the number.
pub proof fn lemma_split_pulls(t: SnailNum, d: nat, lo: nat)
    requires
        height(t) <= d,
        total(t) <= u32::MAX,
        split_spec(t).0,
    ensures
        match explode_spec(split_spec(t).1, d) {
            Some(x) => height(x.left) <= d && total(x.left) + x.to_left + x.to_right == total(t)
                && pull(x.left, lo, pow2(d + 1) as nat) + x.to_right * pow2(
                lo + pow2(d + 1) as nat,
            ) > pull(t, lo, pow2(d + 1) as nat),
            None => height(split_spec(t).1) <= d && total(split_spec(t).1) == total(t) && pull(
                split_spec(t).1,
                lo,
                pow2(d + 1) as nat,
            ) > pull(t, lo, pow2(d + 1) as nat),
        },
    decreases t,
{
    let s = split_spec(t).1;
    let size = pow2(d + 1) as nat;
    lemma_pow2_rises(0, d);
    assert(size == 2 * pow2(d));
    let h = (size / 2) as nat;
    assert(h == pow2(d));
    lemma_split(t);
    lemma_flat(s);
    assert(flat_at(s, d));
    lemma_explode(s, d);
    match t {
        SnailNum::Lit(n) => {
            let f = n / 2;
            let c = (n - n / 2) as u32;
            let left = SnailNum::Lit(f);
            let right = SnailNum::Lit(c);
            assert(s == SnailNum::Pair(Box::new(left), Box::new(right)));
            lemma_pow2_rises(lo, lo + h);
            let w = pow2(lo);
            assert(pull(t, lo, size) == n * w);
            assert(pull(left, lo, h) == f * w);
            assert(pull(right, lo + h, h) == c * pow2(lo + h));
            assert(pull(s, lo, size) == f * w + c * pow2(lo + h));
            assert(height(left) == 0 && height(right) == 0);
            assert(height(s) == 1);
            if d == 0 {
                let x = explode_spec(s, 0).unwrap();
                assert(x.left == SnailNum::Lit(0) && x.to_left == f && x.to_right == c);
                assert(pull(x.left, lo, size) == 0 * w);
                let far = pow2(lo + size);
                assert(size == 2) by {
                    reveal_with_fuel(pow2, 3);
                }
                assert(far == 4 * w) by {
                    reveal_with_fuel(pow2, 3);
                }
                assert(0 * w + c * far > n * w) by (nonlinear_arith)
                    requires
                        far == 4 * w,
                        w > 0,
                        2 * c >= n,
                        n >= 10,
                ;
            } else {
                assert(explode_spec(left, (d - 1) as nat) is None);
                assert(explode_spec(right, (d - 1) as nat) is None);
                assert(explode_spec(s, d) is None);
                let wr = pow2(lo + h);
                assert(h >= 2) by {
                    lemma_pow2_rises(1, d);
                    reveal_with_fuel(pow2, 3);
                }
                lemma_pow2_rises(lo + 1, lo + h);
                assert(pow2(lo + 1) == 2 * w);
                assert(f * w + c * wr > n * w) by (nonlinear_arith)
                    requires
                        wr >= 2 * w,
                        w > 0,
                        f + c == n,
                        c >= 5,
                        f >= 0,
                ;
            }
        },
        SnailNum::Pair(a, b) => {
            let d1 = (d - 1) as nat;
            assert(pow2(d1 + 1) == h);
            lemma_edges(*a);
            lemma_edges(*b);
            lemma_pull_bounds(*a, lo, h);
            lemma_pull_bounds(*b, lo + h, h);
            if split_spec(*a).0 {
                let sa = split_spec(*a).1;
                lemma_split_pulls(*a, d1, lo);
                lemma_calm(*b, d1);
                match explode_spec(sa, d1) {
                    Some(x) => {
                        let v = (leftmost_spec(*b) + x.to_right) as u32;
                        lemma_pull_leftmost(*b, v, lo + h, h);
                        let w = pow2(lo + h);
                        let r = x.to_right as int;
                        let l = leftmost_spec(*b) as int;
                        assert((v - l) * w == r * w) by (nonlinear_arith)
                            requires
                                v == l + r,
                        ;
                    },
                    None => {},
                }
            } else {
                let sb = split_spec(*b).1;
                lemma_split(*a);
                lemma_split_pulls(*b, d1, lo + h);
                lemma_calm(*a, d1);
                match explode_spec(sb, d1) {
                    Some(x) => {
                        let v = (rightmost_spec(*a) + x.to_left) as u32;
                        lemma_pull_rightmost(*a, v, lo, h);
                        assert(lo + h + h == lo + size);
                    },
                    None => {},
                }
            }
        },
    }
}

/// A round that splits, seen from the number without explosions before
/// it to the number without explosions after it: the sum of the plain
/// numbers falls, or it stays and the pull rises.
pub proof fn lemma_round_falls(e: SnailNum)
    requires
        height(e) <= 4,
        total(e) <= u32::MAX,
        split_spec(e).0,
    ensures
        height(explode_all(split_spec(e).1)) <= 4,
        0 <= total(explode_all(split_spec(e).1)) <= total(e),
        total(explode_all(split_spec(e).1)) < total(e) || pull(
            explode_all(split_spec(e).1),
            0,
            32,
        ) > pull(e, 0, 32),
{
    let s = split_spec(e).1;
    lemma_split(e);
    lemma_flat(s);
    assert(pow2(5) == 32) by {
        reveal_with_fuel(pow2, 6);
    }
    lemma_split_pulls(e, 4, 0);
    lemma_explode(s, 4);
    match explode_spec(s, 4) {
        Some(x) => {
            lemma_flat(x.left);
            lemma_calm(x.left, 4);
            lemma_pull_bounds(x.left, 0, 32);
            assert(explode_all(x.left) == x.left);
            assert(explode_all(s) == x.left);
            lemma_pow2_rises(0, 32);
            let far = pow2(0 + pow2(5) as nat);
            let r = x.to_right as int;
            if x.to_left == 0 && x.to_right == 0 {
                assert(r * far == 0) by (nonlinear_arith)
                    requires
                        r == 0,
                ;
            }
        },
        None => {
            assert(explode_all(s) == s);
            lemma_pull_bounds(s, 0, 32);
        },
    }
}

/// The reduction of every snailfish number comes to an end.
pub proof fn lemma_reducible(t: SnailNum)
    requires
        flat_at(t, 4),
        total(t) <= u32::MAX,
    ensures
        reducible(t),
    decreases total(explode_all(t)), pow2(32) * total(explode_all(t)) - pull(explode_all(t), 0, 32),
{
    let e = explode_all(t);
    lemma_explode_all(t);
    lemma_pull_bounds(e, 0, 32);
    if !split_spec(e).0 {
        assert(settles_in(t, 0));
    } else {
        let t2 = split_spec(e).1;
        let e2 = explode_all(t2);
        lemma_round_falls(e);
        lemma_split(e);
        lemma_pull_bounds(e2, 0, 32);
        let w = pow2(32);
        lemma_pow2_rises(0, 32);
        let a = total(e2);
        let b = total(e);
        assert(a < b ==> w * a <= w * b) by (nonlinear_arith)
            requires
                w > 0,
        ;
        lemma_reducible(t2);
        let n = choose|n: nat| settles_in(t2, n);
        assert(round(t) == (true, t2));
        assert(settles_in(t, n + 1));
    }
}

} // verus!
