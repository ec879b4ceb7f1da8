use crate::scan::{digits_end, lemma_digits_end};
use crate::settle::lemma_reducible;
use crate::text::{
    all_digits, decimal, decimal_spec, digits_value, is_ascii_digit, is_digit, parse_magnitude,
    slice,
};
use vstd::prelude::*;

verus! {

/// A snailfish number: a plain number, or a pair of snailfish numbers.
#[derive(Debug)]
pub enum SnailNum {
    Lit(u32),
    Pair(Box<SnailNum>, Box<SnailNum>),
}

/// The plain number that stands leftmost in `t`.
pub open spec fn leftmost_spec(t: SnailNum) -> u32
    decreases t,
{
    match t {
        SnailNum::Lit(n) => n,
        SnailNum::Pair(a, _) => leftmost_spec(*a),
    }
}

/// The plain number that stands rightmost in `t`.
pub open spec fn rightmost_spec(t: SnailNum) -> u32
    decreases t,
{
    match t {
        SnailNum::Lit(n) => n,
        SnailNum::Pair(_, b) => rightmost_spec(*b),
    }
}

/// `t` with `v` in place of its leftmost plain number.
pub open spec fn with_leftmost(t: SnailNum, v: u32) -> SnailNum
    decreases t,
{
    match t {
        SnailNum::Lit(_) => SnailNum::Lit(v),
        SnailNum::Pair(a, b) => SnailNum::Pair(Box::new(with_leftmost(*a, v)), b),
    }
}

/// `t` with `v` in place of its rightmost plain number.
pub open spec fn with_rightmost(t: SnailNum, v: u32) -> SnailNum
    decreases t,
{
    match t {
        SnailNum::Lit(_) => SnailNum::Lit(v),
        SnailNum::Pair(a, b) => SnailNum::Pair(a, Box::new(with_rightmost(*b, v))),
    }
}

/// The sum of the plain numbers of `t`.
pub open spec fn total(t: SnailNum) -> int
    decreases t,
{
    match t {
        SnailNum::Lit(n) => n as int,
        SnailNum::Pair(a, b) => total(*a) + total(*b),
    }
}

/// The number of pairs in `t`.
pub open spec fn pairs(t: SnailNum) -> nat
    decreases t,
{
    match t {
        SnailNum::Lit(_) => 0,
        SnailNum::Pair(a, b) => 1 + pairs(*a) + pairs(*b),
    }
}

/// How deep the pairs of `t` are nested.
pub open spec fn height(t: SnailNum) -> nat
    decreases t,
{
    match t {
        SnailNum::Lit(_) => 0,
        SnailNum::Pair(a, b) => 1 + (if height(*a) >= height(*b) {
            height(*a)
        } else {
            height(*b)
        }),
    }
}

/// The magnitude: three times that of the left part plus twice that of
/// the right part.
pub open spec fn mag_spec(t: SnailNum) -> int
    decreases t,
{
    match t {
        SnailNum::Lit(n) => n as int,
        SnailNum::Pair(a, b) => 3 * mag_spec(*a) + 2 * mag_spec(*b),
    }
}

/// What an explosion does: the number that is left, and what the pair
/// that blew up hands to its neighbours on the left and on the right
/// outside of `t`.
pub struct Blast {
    pub left: SnailNum,
    pub to_left: u32,
    pub to_right: u32,
}

/// The explosion of the leftmost pair that is nested inside `depth`
/// pairs, if there is one: the pair becomes 0, its left part is added to
/// the plain number to its left and its right part to the one to its
/// right.
pub open spec fn explode_spec(t: SnailNum, depth: nat) -> Option<Blast>
    decreases t,
{
    match t {
        SnailNum::Lit(_) => None,
        SnailNum::Pair(a, b) => if depth == 0 {
            Some(Blast { left: SnailNum::Lit(0), to_left: leftlit(*a), to_right: leftlit(*b) })
        } else {
            match explode_spec(*a, (depth - 1) as nat) {
                Some(x) => Some(
                    Blast {
                        left: SnailNum::Pair(
                            Box::new(x.left),
                            Box::new(
                                with_leftmost(*b, (leftmost_spec(*b) + x.to_right) as u32),
                            ),
                        ),
                        to_left: x.to_left,
                        to_right: 0,
                    },
                ),
                None => match explode_spec(*b, (depth - 1) as nat) {
                    Some(x) => Some(
                        Blast {
                            left: SnailNum::Pair(
                                Box::new(
                                    with_rightmost(*a, (rightmost_spec(*a) + x.to_left) as u32),
                                ),
                                Box::new(x.left),
                            ),
                            to_left: 0,
                            to_right: x.to_right,
                        },
                    ),
                    None => None,
                },
            }
        },
    }
}

/// The plain number that `t` is, 0 if it is a pair.
pub open spec fn leftlit(t: SnailNum) -> u32 {
    match t {
        SnailNum::Lit(n) => n,
        SnailNum::Pair(_, _) => 0,
    }
}

/// Whether every pair of `t` that is nested inside `depth` pairs is a
/// pair of plain numbers.
pub open spec fn flat_at(t: SnailNum, depth: nat) -> bool
    decreases t,
{
    match t {
        SnailNum::Lit(_) => true,
        SnailNum::Pair(a, b) => if depth == 0 {
            *a is Lit && *b is Lit
        } else {
            flat_at(*a, (depth - 1) as nat) && flat_at(*b, (depth - 1) as nat)
        },
    }
}

/// The split of the leftmost plain number that is 10 or more, if there is
/// one: it becomes a pair of its half rounded down and its half rounded
/// up.
pub open spec fn split_spec(t: SnailNum) -> (bool, SnailNum)
    decreases t,
{
    match t {
        SnailNum::Lit(n) => if n >= 10 {
            (
                true,
                SnailNum::Pair(
                    Box::new(SnailNum::Lit(n / 2)),
                    Box::new(SnailNum::Lit((n - n / 2) as u32)),
                ),
            )
        } else {
            (false, t)
        },
        SnailNum::Pair(a, b) => {
            let (da, na) = split_spec(*a);
            if da {
                (true, SnailNum::Pair(Box::new(na), b))
            } else {
                let (db, nb) = split_spec(*b);
                (db, SnailNum::Pair(Box::new(na), Box::new(nb)))
            }
        },
    }
}

pub proof fn lemma_edges(t: SnailNum)
    ensures
        with_leftmost(t, leftmost_spec(t)) == t,
        with_rightmost(t, rightmost_spec(t)) == t,
        0 <= leftmost_spec(t) <= total(t),
        0 <= rightmost_spec(t) <= total(t),
        forall|v: u32| total(with_leftmost(t, v)) == total(t) - leftmost_spec(t) + v,
        forall|v: u32| total(with_rightmost(t, v)) == total(t) - rightmost_spec(t) + v,
        forall|v: u32| pairs(with_leftmost(t, v)) == pairs(t),
        forall|v: u32| pairs(with_rightmost(t, v)) == pairs(t),
        forall|v: u32| height(with_leftmost(t, v)) == height(t),
        forall|v: u32| height(with_rightmost(t, v)) == height(t),
        forall|v: u32, d: nat| flat_at(with_leftmost(t, v), d) == flat_at(t, d),
        forall|v: u32, d: nat| flat_at(with_rightmost(t, v), d) == flat_at(t, d),
    decreases t,
{
    match t {
        SnailNum::Lit(_) => {},
        SnailNum::Pair(a, b) => {
            lemma_edges(*a);
            lemma_edges(*b);
            assert forall|v: u32, d: nat| flat_at(with_leftmost(t, v), d) == flat_at(t, d) by {
                if d == 0 {
                    assert(with_leftmost(*a, v) is Lit == (*a is Lit));
                } else {
                    assert(flat_at(with_leftmost(*a, v), (d - 1) as nat) == flat_at(
                        *a,
                        (d - 1) as nat,
                    ));
                }
            }
            assert forall|v: u32, d: nat| flat_at(with_rightmost(t, v), d) == flat_at(t, d) by {
                if d == 0 {
                    assert(with_rightmost(*b, v) is Lit == (*b is Lit));
                } else {
                    assert(flat_at(with_rightmost(*b, v), (d - 1) as nat) == flat_at(
                        *b,
                        (d - 1) as nat,
                    ));
                }
            }
            assert forall|v: u32| height(with_leftmost(t, v)) == height(t) by {
                assert(height(with_leftmost(*a, v)) == height(*a));
            }
            assert forall|v: u32| height(with_rightmost(t, v)) == height(t) by {
                assert(height(with_rightmost(*b, v)) == height(*b));
            }
            assert forall|v: u32| pairs(with_leftmost(t, v)) == pairs(t) by {
                assert(pairs(with_leftmost(*a, v)) == pairs(*a));
            }
            assert forall|v: u32| pairs(with_rightmost(t, v)) == pairs(t) by {
                assert(pairs(with_rightmost(*b, v)) == pairs(*b));
            }
            assert forall|v: u32| total(with_leftmost(t, v)) == total(t) - leftmost_spec(t) + v by {
                assert(total(with_leftmost(*a, v)) == total(*a) - leftmost_spec(*a) + v);
            }
            assert forall|v: u32| total(with_rightmost(t, v)) == total(t) - rightmost_spec(t)
                + v by {
                assert(total(with_rightmost(*b, v)) == total(*b) - rightmost_spec(*b) + v);
            }
        },
    }
}

/// An explosion hands on no more than the number held, takes one pair
/// away and leaves the nesting no deeper.
pub proof fn lemma_explode(t: SnailNum, depth: nat)
    requires
        flat_at(t, depth),
        total(t) <= u32::MAX,
    ensures
        0 <= total(t),
        explode_spec(t, depth) matches Some(x) ==> total(x.left) + x.to_left + x.to_right
            == total(t) && pairs(x.left) + 1 == pairs(t) && height(x.left) <= height(t)
            && flat_at(x.left, depth) && total(x.left) >= 0,
        explode_spec(t, depth) is None ==> height(t) <= depth,
    decreases t,
{
    lemma_edges(t);
    match t {
        SnailNum::Lit(_) => {},
        SnailNum::Pair(a, b) => {
            lemma_edges(*a);
            lemma_edges(*b);
            if depth > 0 {
                let d1 = (depth - 1) as nat;
                lemma_explode(*a, d1);
                lemma_explode(*b, d1);
                match explode_spec(*a, d1) {
                    Some(x) => {
                        let v = (leftmost_spec(*b) + x.to_right) as u32;
                        let b2 = with_leftmost(*b, v);
                        assert(total(b2) == total(*b) - leftmost_spec(*b) + v);
                        assert(pairs(b2) == pairs(*b));
                        assert(height(b2) == height(*b));
                        assert(flat_at(b2, d1) == flat_at(*b, d1));
                    },
                    None => {
                        match explode_spec(*b, d1) {
                            Some(x) => {
                                let v = (rightmost_spec(*a) + x.to_left) as u32;
                                let a2 = with_rightmost(*a, v);
                                assert(total(a2) == total(*a) - rightmost_spec(*a) + v);
                                assert(pairs(a2) == pairs(*a));
                                assert(height(a2) == height(*a));
                                assert(flat_at(a2, d1) == flat_at(*a, d1));
                            },
                            None => {},
                        }
                    },
                }
            }
        },
    }
}

/// A split keeps the sum and nests at most one pair deeper.
pub proof fn lemma_split(t: SnailNum)
    ensures
        total(split_spec(t).1) == total(t),
        height(split_spec(t).1) <= height(t) + 1,
        !split_spec(t).0 ==> split_spec(t).1 == t,
        forall|d: nat| height(t) <= d ==> #[trigger] flat_at(split_spec(t).1, d),
        split_weight(split_spec(t).1) + (if split_spec(t).0 {
            1int
        } else {
            0int
        }) == split_weight(t),
        split_weight(t) >= 0,
    decreases t,
{
    match t {
        SnailNum::Lit(n) => {
            if n >= 10 {
                reveal_with_fuel(total, 3);
                reveal_with_fuel(height, 3);
                reveal_with_fuel(split_weight, 3);
            }
        },
        SnailNum::Pair(a, b) => {
            lemma_split(*a);
            lemma_split(*b);
        },
    }
    lemma_flat(split_spec(t).1);
}

/// A number whose pairs are nested no deeper than `d + 1` has only pairs
/// of plain numbers inside `d` pairs.
pub proof fn lemma_flat(t: SnailNum)
    ensures
        forall|d: nat| height(t) <= d + 1 ==> #[trigger] flat_at(t, d),
    decreases t,
{
    match t {
        SnailNum::Lit(_) => {},
        SnailNum::Pair(a, b) => {
            lemma_flat(*a);
            lemma_flat(*b);
            assert forall|d: nat| height(t) <= d + 1 implies #[trigger] flat_at(t, d) by {
                if d > 0 {
                    assert(flat_at(*a, (d - 1) as nat));
                    assert(flat_at(*b, (d - 1) as nat));
                }
            }
        },
    }
}

/// A weight that falls by one with every split: twice each plain number
/// less one.
pub open spec fn split_weight(t: SnailNum) -> int
    decreases t,
{
    match t {
        SnailNum::Lit(n) => if n == 0 {
            0
        } else {
            2 * n - 1
        },
        SnailNum::Pair(a, b) => split_weight(*a) + split_weight(*b),
    }
}

impl SnailNum {
    /// The plain number that stands leftmost.
    pub fn leftmost(&mut self) -> (r: &mut u32)
        ensures
            *r == leftmost_spec(*old(self)),
            *final(self) == with_leftmost(*old(self), *final(r)),
        decreases *old(self),
    {
        match self {
            SnailNum::Lit(n) => n,
            SnailNum::Pair(b, _) => b.leftmost(),
        }
    }

    /// The plain number that stands rightmost.
    pub fn rightmost(&mut self) -> (r: &mut u32)
        ensures
            *r == rightmost_spec(*old(self)),
            *final(self) == with_rightmost(*old(self), *final(r)),
        decreases *old(self),
    {
        match self {
            SnailNum::Lit(n) => n,
            SnailNum::Pair(_, b) => b.rightmost(),
        }
    }

    /// The plain number that this is.
    pub fn assume_lit(&self) -> (n: u32)
        requires
            self is Lit,
        ensures
            *self == SnailNum::Lit(n),
    {
        match self {
            SnailNum::Lit(n) => *n,
            _ => 0,
        }
    }

    /// The plain number that this is, if it is one.
    pub fn as_lit(&self) -> (r: Option<u32>)
        ensures
            r == (match *self {
                SnailNum::Lit(n) => Some(n),
                _ => None::<u32>,
            }),
    {
        match self {
            SnailNum::Lit(n) => Some(*n),
            _ => None,
        }
    }

    /// Explodes the leftmost pair that is nested inside `depth` pairs.
    /// The plain numbers behind `l` and `r` are the neighbours of this
    /// number on the left and on the right. Returns whether a pair
    /// exploded.
    pub fn attempt_explode(&mut self, l: Option<&mut u32>, r: Option<&mut u32>, depth: usize) -> (done:
        bool)
        requires
            flat_at(*old(self), depth as nat),
            total(*old(self)) <= u32::MAX,
            l matches Some(x) ==> *x + total(*old(self)) <= u32::MAX,
            r matches Some(x) ==> *x + total(*old(self)) <= u32::MAX,
        ensures
            done == explode_spec(*old(self), depth as nat).is_some(),
            done ==> *final(self) == explode_spec(*old(self), depth as nat).unwrap().left,
            done ==> (l matches Some(x) ==> *final(x) == *x + explode_spec(
                *old(self),
                depth as nat,
            ).unwrap().to_left),
            done ==> (r matches Some(x) ==> *final(x) == *x + explode_spec(
                *old(self),
                depth as nat,
            ).unwrap().to_right),
            !done ==> *final(self) == *old(self),
            !done ==> (l matches Some(x) ==> *final(x) == *x),
            !done ==> (r matches Some(x) ==> *final(x) == *x),
        decreases *old(self),
    {
        proof {
            lemma_explode(*self, depth as nat);
            lemma_edges(*self);
        }
        match self {
            SnailNum::Lit(_) => false,
            SnailNum::Pair(a, b) => {
                proof {
                    lemma_edges(**a);
                    lemma_edges(**b);
                    if depth > 0 {
                        lemma_explode(**a, (depth - 1) as nat);
                        lemma_explode(**b, (depth - 1) as nat);
                    }
                }
                if depth == 0 {
                    let av = a.assume_lit();
                    let bv = b.assume_lit();
                    if let Some(l) = l {
                        *l = *l + av;
                    }
                    if let Some(r) = r {
                        *r = *r + bv;
                    }
                    *self = SnailNum::Lit(0);
                    true
                } else {
                    if a.attempt_explode(l, Some(b.leftmost()), depth - 1) {
                        true
                    } else {
                        b.attempt_explode(Some(a.rightmost()), r, depth - 1)
                    }
                }
            },
        }
    }

    /// Splits the leftmost plain number that is 10 or more. Returns
    /// whether there was one.
    pub fn attempt_split(&mut self) -> (r: bool)
        ensures
            r == split_spec(*old(self)).0,
            *final(self) == split_spec(*old(self)).1,
        decreases *old(self),
    {
        if let Some(v) = self.as_lit() {
            if v >= 10 {
                let a: u32 = v / 2;
                let b: u32 = v - a;
                *self = SnailNum::Pair(Box::new(SnailNum::Lit(a)), Box::new(SnailNum::Lit(b)));
                true
            } else {
                false
            }
        } else {
            proof {
                lemma_split(*self);
            }
            match self {
                SnailNum::Lit(_) => false,
                SnailNum::Pair(a, b) => {
                    proof {
                        lemma_split(**a);
                        lemma_split(**b);
                    }
                    if a.attempt_split() {
                        true
                    } else {
                        b.attempt_split()
                    }
                },
            }
        }
    }

    /// The magnitude of the number.
    pub fn mag(&self) -> (r: u32)
        requires
            mag_spec(*self) <= u32::MAX,
        ensures
            r == mag_spec(*self),
        decreases *self,
    {
        proof {
            lemma_mag_nonneg(*self);
        }
        match self {
            SnailNum::Lit(n) => *n,
            SnailNum::Pair(a, b) => {
                proof {
                    lemma_mag_nonneg(**a);
                    lemma_mag_nonneg(**b);
                }
                3 * a.mag() + 2 * b.mag()
            },
        }
    }

    /// A copy of the number.
    pub fn copy(&self) -> (r: SnailNum)
        ensures
            r == *self,
        decreases *self,
    {
        match self {
            SnailNum::Lit(n) => SnailNum::Lit(*n),
            SnailNum::Pair(a, b) => SnailNum::Pair(Box::new(a.copy()), Box::new(b.copy())),
        }
    }
}

pub proof fn lemma_mag_nonneg(t: SnailNum)
    ensures
        0 <= mag_spec(t),
    decreases t,
{
    match t {
        SnailNum::Lit(_) => {},
        SnailNum::Pair(a, b) => {
            lemma_mag_nonneg(*a);
            lemma_mag_nonneg(*b);
        },
    }
}

/// The number after every pair nested inside four pairs has exploded,
/// the leftmost first.
pub open spec fn explode_all(t: SnailNum) -> SnailNum
    decreases pairs(t),
{
    if !(flat_at(t, 4) && total(t) <= u32::MAX) {
        t
    } else {
        match explode_spec(t, 4) {
            Some(x) => {
                proof {
                    lemma_explode(t, 4);
                }
                explode_all(x.left)
            },
            None => t,
        }
    }
}

/// The number after all splits, the leftmost first each time.
pub open spec fn split_all(t: SnailNum) -> SnailNum
    decreases split_weight(t),
{
    if split_spec(t).0 {
        proof {
            lemma_split(t);
            lemma_split(split_spec(t).1);
        }
        split_all(split_spec(t).1)
    } else {
        t
    }
}

/// One round of reduction: every explosion that there is, then one
/// split. The flag tells whether there was a split.
pub open spec fn round(t: SnailNum) -> (bool, SnailNum) {
    split_spec(explode_all(t))
}

/// Whether `t` is reduced after at most `n` rounds that split.
pub open spec fn settles_in(t: SnailNum, n: nat) -> bool
    decreases n,
{
    if !round(t).0 {
        true
    } else if n == 0 {
        false
    } else {
        settles_in(round(t).1, (n - 1) as nat)
    }
}

/// Whether the reduction of `t` comes to an end.
pub open spec fn reducible(t: SnailNum) -> bool {
    exists|n: nat| settles_in(t, n)
}

/// The number after at most `n` rounds that split, and one round more.
pub open spec fn rounds(t: SnailNum, n: nat) -> SnailNum
    decreases n,
{
    if !round(t).0 || n == 0 {
        round(t).1
    } else {
        rounds(round(t).1, (n - 1) as nat)
    }
}

/// The reduced form of a number whose reduction comes to an end.
pub open spec fn reduced(t: SnailNum) -> SnailNum {
    rounds(t, choose|n: nat| settles_in(t, n))
}

/// Where the reduction ends does not depend on how many rounds it is
/// given, as long as they are enough.
pub proof fn lemma_rounds(t: SnailNum, n: nat, m: nat)
    requires
        settles_in(t, n),
        settles_in(t, m),
    ensures
        rounds(t, n) == rounds(t, m),
    decreases n,
{
    if round(t).0 {
        lemma_rounds(round(t).1, (n - 1) as nat, (m - 1) as nat);
    }
}

pub proof fn lemma_explode_all(t: SnailNum)
    requires
        flat_at(t, 4),
        total(t) <= u32::MAX,
    ensures
        height(explode_all(t)) <= 4,
        0 <= total(explode_all(t)) <= total(t),
        height(explode_all(t)) <= height(t),
    decreases pairs(t),
{
    lemma_explode(t, 4);
    match explode_spec(t, 4) {
        Some(x) => {
            lemma_explode_all(x.left);
        },
        None => {},
    }
}

impl SnailNum {
    /// Explodes until no pair is nested inside four pairs. Returns
    /// whether any pair exploded.
    pub fn fully_explode(&mut self) -> (r: bool)
        requires
            flat_at(*old(self), 4),
            total(*old(self)) <= u32::MAX,
        ensures
            *final(self) == explode_all(*old(self)),
            r == explode_spec(*old(self), 4).is_some(),
    {
        proof {
            lemma_explode(*self, 4);
        }
        if !self.attempt_explode(None, None, 4) {
            return false;
        }
        loop
            invariant
                flat_at(*self, 4),
                0 <= total(*self) <= u32::MAX,
                explode_all(*self) == explode_all(*old(self)),
                explode_spec(*old(self), 4) is Some,
            decreases pairs(*self),
        {
            proof {
                lemma_explode(*self, 4);
            }
            if !self.attempt_explode(None, None, 4) {
                return true;
            }
        }
    }

    /// Splits until no plain number is 10 or more. Returns whether
    /// there was any split.
    pub fn fully_split(&mut self) -> (r: bool)
        ensures
            *final(self) == split_all(*old(self)),
            r == split_spec(*old(self)).0,
    {
        proof {
            lemma_split(*self);
        }
        if !self.attempt_split() {
            return false;
        }
        loop
            invariant
                split_all(*self) == split_all(*old(self)),
                split_spec(*old(self)).0,
            decreases split_weight(*self),
        {
            proof {
                lemma_split(*self);
                lemma_split(split_spec(*self).1);
            }
            if !self.attempt_split() {
                return true;
            }
        }
    }

    /// Reduces the number: explosions come first; when there is none, one
    /// split is made; and so on until neither is left to do.
    pub fn normalize(&mut self)
        requires
            height(*old(self)) <= 5,
            total(*old(self)) <= u32::MAX,
        ensures
            *final(self) == reduced(*old(self)),
            height(*final(self)) <= 4,
            total(*final(self)) <= total(*old(self)),
    {
        proof {
            lemma_flat(*self);
            lemma_reducible(*self);
        }
        let ghost mut fuel: nat = choose|n: nat| settles_in(*self, n);
        let ghost fuel0 = fuel;
        let mut dirty = true;
        while dirty
            invariant
                flat_at(*self, 4),
                0 <= total(*self) <= total(*old(self)) || dirty,
                total(*self) <= total(*old(self)),
                total(*old(self)) <= u32::MAX,
                dirty ==> height(*self) <= 5 && settles_in(*self, fuel) && rounds(*self, fuel)
                    == rounds(*old(self), fuel0),
                !dirty ==> height(*self) <= 4 && *self == rounds(*old(self), fuel0),
                reducible(*old(self)),
                fuel0 == (choose|n: nat| settles_in(*old(self), n)),
            decreases
                    (if dirty {
                        fuel + 1
                    } else {
                        0
                    }),
        {
            let ghost before = *self;
            proof {
                lemma_explode_all(before);
            }
            loop
                invariant
                    flat_at(*self, 4),
                    total(*self) <= u32::MAX,
                    explode_all(*self) == explode_all(before),
                ensures
                    *self == explode_all(before),
                decreases pairs(*self),
            {
                proof {
                    lemma_explode(*self, 4);
                }
                if !self.attempt_explode(None, None, 4) {
                    break ;
                }
            }
            proof {
                lemma_split(*self);
                lemma_flat(split_spec(*self).1);
            }
            dirty = self.attempt_split();
            proof {
                assert(round(before) == (dirty, *self));
                if dirty {
                    fuel = (fuel - 1) as nat;
                }
            }
        }
    }

    /// The sum of two snailfish numbers: their pair, reduced.
    pub fn add(self, rhs: SnailNum) -> (r: SnailNum)
        requires
            height(self) <= 4,
            height(rhs) <= 4,
            total(self) + total(rhs) <= u32::MAX,
        ensures
            r == reduced(SnailNum::Pair(Box::new(self), Box::new(rhs))),
            height(r) <= 4,
            total(r) <= total(self) + total(rhs),
    {
        let mut r = SnailNum::Pair(Box::new(self), Box::new(rhs));
        r.normalize();
        r
    }
}

/// What a text of a snailfish number is made of: the opening of a pair, or a
/// plain number.
#[derive(Copy, Clone, PartialEq, Eq, Structural, Debug)]
pub enum SnailToken {
    Open,
    Num(u32),
}

/// The tokens of a text from index `i` on: `[` opens a pair, a run of
/// digits is a number, and `,`, `]` and line feeds are passed over.
/// `None` when another character is met or a number is too great.
pub open spec fn tokens_from(s: Seq<char>, i: int) -> Option<Seq<SnailToken>>
    decreases s.len() - i,
{
    if i < 0 || i >= s.len() {
        Some(seq![])
    } else if s[i] == '[' {
        match tokens_from(s, i + 1) {
            Some(rest) => Some(seq![SnailToken::Open] + rest),
            None => None,
        }
    } else if s[i] == ',' || s[i] == ']' || s[i] == '\n' {
        tokens_from(s, i + 1)
    } else if is_digit(s[i]) {
        let e = digits_end(s, i);
        let v = digits_value(s.subrange(i, e));
        if v > u32::MAX || e <= i || e > s.len() {
            None
        } else {
            match tokens_from(s, e) {
                Some(rest) => Some(seq![SnailToken::Num(v as u32)] + rest),
                None => None,
            }
        }
    } else {
        None
    }
}

/// Cuts a text into tokens.
pub fn tokenise(s: &Vec<char>) -> (r: Option<Vec<SnailToken>>)
    ensures
        (match r {
            Some(v) => Some(v@),
            None => None,
        }) == tokens_from(s@, 0),
{
    let mut out: Vec<SnailToken> = Vec::new();
    let mut i: usize = 0;
    assert(out@ + Seq::<SnailToken>::empty() =~= out@);
    while i < s.len()
        invariant
            i <= s.len(),
            tokens_from(s@, 0) == (match tokens_from(s@, i as int) {
                Some(rest) => Some(out@ + rest),
                None => None,
            }),
        decreases s.len() - i,
    {
        let c = s[i];
        let ghost before = out@;
        if c == '[' {
            out.push(SnailToken::Open);
            proof {
                match tokens_from(s@, i + 1) {
                    Some(rest) => {
                        assert(before + (seq![SnailToken::Open] + rest) =~= before.push(
                            SnailToken::Open,
                        ) + rest);
                    },
                    None => {},
                }
            }
            i = i + 1;
        } else if c == ',' || c == ']' || c == '\n' {
            i = i + 1;
        } else if is_ascii_digit(c) {
            let mut e: usize = i;
            proof {
                lemma_digits_end(s@, i as int);
            }
            while e < s.len() && is_ascii_digit(s[e])
                invariant
                    i <= e <= s.len(),
                    digits_end(s@, i as int) == digits_end(s@, e as int),
                decreases s.len() - e,
            {
                e = e + 1;
            }
            let run = slice(s, i, e);
            proof {
                assert(e > i);
                assert(run@.subrange(0, run.len() as int) =~= run@);
                assert(all_digits(run@)) by {
                    assert forall|k: int| 0 <= k < run@.len() implies is_digit(#[trigger] run@[k]) by {
                        assert(run@[k] == s@[i + k]);
                    }
                }
            }
            match parse_magnitude(&run, 0, 0xffff_ffff) {
                Some(v) => {
                    let tok = SnailToken::Num(v as u32);
                    out.push(tok);
                    proof {
                        match tokens_from(s@, e as int) {
                            Some(rest) => {
                                assert(before + (seq![tok] + rest) =~= before.push(tok) + rest);
                            },
                            None => {},
                        }
                    }
                    i = e;
                },
                None => {
                    return None;
                },
            }
        } else {
            return None;
        }
    }
    assert(out@ + Seq::<SnailToken>::empty() =~= out@);
    Some(out)
}

/// The snailfish number that the tokens from index `pos` on spell, and the
/// index after it: a number token is a plain number, an opening token is
/// followed by the two parts of a pair.
pub open spec fn parse_spec(tokens: Seq<SnailToken>, pos: int) -> Option<(SnailNum, int)>
    decreases tokens.len() - pos,
{
    if pos < 0 || pos >= tokens.len() {
        None
    } else {
        match tokens[pos] {
            SnailToken::Num(n) => Some((SnailNum::Lit(n), pos + 1)),
            SnailToken::Open => match parse_spec(tokens, pos + 1) {
                Some((a, p1)) => if p1 <= pos || p1 > tokens.len() {
                    None
                } else {
                    match parse_spec(tokens, p1) {
                        Some((b, p2)) => Some((SnailNum::Pair(Box::new(a), Box::new(b)), p2)),
                        None => None,
                    }
                },
                None => None,
            },
        }
    }
}

pub proof fn lemma_parse(tokens: Seq<SnailToken>, pos: int)
    requires
        0 <= pos,
    ensures
        parse_spec(tokens, pos) matches Some(v) ==> pos < v.1 <= tokens.len(),
    decreases tokens.len() - pos,
{
    if pos < tokens.len() {
        match tokens[pos] {
            SnailToken::Num(_) => {},
            SnailToken::Open => {
                lemma_parse(tokens, pos + 1);
                match parse_spec(tokens, pos + 1) {
                    Some((a, p1)) => {
                        if p1 > pos && p1 <= tokens.len() {
                            lemma_parse(tokens, p1);
                        }
                    },
                    None => {},
                }
            },
        }
    }
}

/// Reads one snailfish number from the tokens at the cursor.
pub fn parse_single(tokens: &Vec<SnailToken>, pos: &mut usize) -> (r: Option<SnailNum>)
    requires
        *old(pos) <= tokens.len(),
    ensures
        match r {
            Some(n) => parse_spec(tokens@, *old(pos) as int) == Some((n, *final(pos) as int)),
            None => parse_spec(tokens@, *old(pos) as int) is None,
        },
        *old(pos) <= *final(pos) <= tokens.len(),
    decreases tokens.len() - *old(pos),
{
    let ghost start = *pos;
    proof {
        lemma_parse(tokens@, start as int);
        lemma_parse(tokens@, start + 1);
    }
    if *pos >= tokens.len() {
        return None;
    }
    let tok = tokens[*pos];
    *pos = *pos + 1;
    match tok {
        SnailToken::Num(n) => Some(SnailNum::Lit(n)),
        SnailToken::Open => {
            let a = match parse_single(tokens, pos) {
                Some(a) => a,
                None => {
                    return None;
                },
            };
            proof {
                lemma_parse(tokens@, *pos as int);
            }
            let b = match parse_single(tokens, pos) {
                Some(b) => b,
                None => {
                    return None;
                },
            };
            Some(SnailNum::Pair(Box::new(a), Box::new(b)))
        },
    }
}

/// The snailfish number that a line spells.
pub open spec fn number_of(line: Seq<char>) -> Option<SnailNum> {
    match tokens_from(line, 0) {
        Some(tokens) => match parse_spec(tokens, 0) {
            Some(v) => Some(v.0),
            None => None,
        },
        None => None,
    }
}

/// Reads the snailfish numbers, one from each line.
pub fn read_data(lines: &Vec<Vec<char>>) -> (r: Option<Vec<SnailNum>>)
    ensures
        r is Some <==> forall|i: int| 0 <= i < lines.len() ==> number_of(#[trigger] lines[i]@) is Some,
        r matches Some(v) ==> v.len() == lines.len() && forall|i: int|
            0 <= i < v.len() ==> Some(#[trigger] v[i]) == number_of(lines[i]@),
{
    let mut out: Vec<SnailNum> = Vec::new();
    let mut i: usize = 0;
    while i < lines.len()
        invariant
            i <= lines.len(),
            out.len() == i,
            forall|k: int| 0 <= k < i ==> number_of(#[trigger] lines[k]@) is Some,
            forall|k: int| 0 <= k < i ==> Some(#[trigger] out[k]) == number_of(lines[k]@),
        decreases lines.len() - i,
    {
        let tokens = match tokenise(&lines[i]) {
            Some(t) => t,
            None => {
                return None;
            },
        };
        let mut pos: usize = 0;
        match parse_single(&tokens, &mut pos) {
            Some(n) => {
                out.push(n);
            },
            None => {
                return None;
            },
        }
        i = i + 1;
    }
    Some(out)
}

/// The sum of the first `k` numbers of the list, added one after another.
pub open spec fn sum_spec(data: Seq<SnailNum>, k: int) -> SnailNum
    decreases k,
{
    if k <= 1 {
        data[0]
    } else {
        reduced(SnailNum::Pair(Box::new(sum_spec(data, k - 1)), Box::new(data[k - 1])))
    }
}

/// Whether the first `k` numbers of the list can be added one after
/// another: no number is nested deeper than four pairs, and the plain
/// numbers stay in the range of `u32`.
pub open spec fn summable(data: Seq<SnailNum>, k: int) -> bool
    decreases k,
{
    if k <= 1 {
        height(data[0]) <= 4
    } else {
        summable(data, k - 1) && height(data[k - 1]) <= 4 && total(sum_spec(data, k - 1)) + total(
            data[k - 1],
        ) <= u32::MAX
    }
}

pub proof fn lemma_summable(data: Seq<SnailNum>, k: int, n: int)
    requires
        1 <= k <= n,
        summable(data, n),
    ensures
        summable(data, k),
    decreases n - k,
{
    if k < n {
        lemma_summable(data, k, n - 1);
    }
}

/// The sum of the plain numbers of the first `k` numbers of a list.
pub open spec fn totals(data: Seq<SnailNum>, k: int) -> int
    decreases k,
{
    if k <= 0 {
        0
    } else {
        totals(data, k - 1) + total(data[k - 1])
    }
}

/// Reduction lets the sum of the plain numbers grow no greater and
/// leaves no pair nested inside four pairs.
pub proof fn lemma_rounds_bounds(t: SnailNum, n: nat)
    requires
        flat_at(t, 4),
        total(t) <= u32::MAX,
        settles_in(t, n),
    ensures
        total(rounds(t, n)) <= total(t),
        height(rounds(t, n)) <= 4,
    decreases n,
{
    let e = explode_all(t);
    lemma_explode_all(t);
    lemma_split(e);
    if round(t).0 {
        lemma_rounds_bounds(round(t).1, (n - 1) as nat);
    }
}

/// Numbers that are nested no deeper than four pairs and whose plain
/// numbers add up to no more than `u32` holds can be added one after
/// another.
pub proof fn lemma_sums_fit(data: Seq<SnailNum>, k: int)
    requires
        1 <= k <= data.len(),
        forall|i: int| 0 <= i < k ==> height(#[trigger] data[i]) <= 4,
        totals(data, k) <= u32::MAX,
    ensures
        summable(data, k),
        total(sum_spec(data, k)) <= totals(data, k),
        height(sum_spec(data, k)) <= 4,
        0 <= totals(data, k - 1),
    decreases k,
{
    reveal_with_fuel(totals, 2);
    lemma_total_nonneg(data[k - 1]);
    if k > 1 {
        lemma_sums_fit_lower(data, k - 1);
        lemma_sums_fit(data, k - 1);
        let pair = SnailNum::Pair(Box::new(sum_spec(data, k - 1)), Box::new(data[k - 1]));
        lemma_flat(pair);
        lemma_reducible(pair);
        let n = choose|n: nat| settles_in(pair, n);
        lemma_rounds_bounds(pair, n);
    }
}

pub proof fn lemma_sums_fit_lower(data: Seq<SnailNum>, k: int)
    requires
        0 <= k <= data.len(),
    ensures
        0 <= totals(data, k),
        forall|j: int| 0 <= j <= k ==> totals(data, j) <= totals(data, k),
    decreases k,
{
    if k > 0 {
        lemma_sums_fit_lower(data, k - 1);
        lemma_total_nonneg(data[k - 1]);
    }
}

pub proof fn lemma_total_nonneg(t: SnailNum)
    ensures
        0 <= total(t),
    decreases t,
{
    match t {
        SnailNum::Lit(_) => {},
        SnailNum::Pair(a, b) => {
            lemma_total_nonneg(*a);
            lemma_total_nonneg(*b);
        },
    }
}

/// Adds up the numbers of the list.
pub fn sum_all(data: &Vec<SnailNum>) -> (r: SnailNum)
    requires
        data.len() >= 1,
        summable(data@, data.len() as int),
    ensures
        r == sum_spec(data@, data.len() as int),
{
    proof {
        lemma_summable(data@, 1, data.len() as int);
    }
    let mut acc = data[0].copy();
    let mut i: usize = 1;
    while i < data.len()
        invariant
            1 <= i <= data.len(),
            summable(data@, data.len() as int),
            acc == sum_spec(data@, i as int),
            height(acc) <= 4,
        decreases data.len() - i,
    {
        proof {
            lemma_summable(data@, i + 1, data.len() as int);
        }
        acc = acc.add(data[i].copy());
        i = i + 1;
    }
    acc
}

/// The text of a snailfish number: a plain number in decimal digits, a
/// pair as `[`, the left part, `,`, the right part and `]`.
pub open spec fn text_spec(t: SnailNum) -> Seq<char>
    decreases t,
{
    match t {
        SnailNum::Lit(n) => decimal_spec(n as nat),
        SnailNum::Pair(a, b) => seq!['['] + text_spec(*a) + seq![','] + text_spec(*b) + seq![']'],
    }
}

impl SnailNum {
    /// Writes the number as text.
    pub fn fmt(&self) -> (r: Vec<char>)
        ensures
            r@ == text_spec(*self),
        decreases *self,
    {
        match self {
            SnailNum::Lit(n) => decimal(*n as u64),
            SnailNum::Pair(a, b) => {
                let mut out: Vec<char> = Vec::new();
                out.push('[');
                let mut left = a.fmt();
                out.append(&mut left);
                out.push(',');
                let mut right = b.fmt();
                out.append(&mut right);
                out.push(']');
                assert(out@ =~= seq!['['] + text_spec(**a) + seq![','] + text_spec(**b) + seq![
                    ']',
                ]);
                out
            },
        }
    }
}

/// The magnitude of the sum of `a` and `b`.
pub open spec fn pair_mag(a: SnailNum, b: SnailNum) -> int {
    mag_spec(reduced(SnailNum::Pair(Box::new(a), Box::new(b))))
}

/// Whether `a` and `b` can be added and the magnitude of their sum
/// taken.
pub open spec fn addable(a: SnailNum, b: SnailNum) -> bool {
    height(a) <= 4 && height(b) <= 4 && total(a) + total(b) <= u32::MAX && pair_mag(a, b)
        <= u32::MAX
}

/// The power of three with exponent `n`.
pub open spec fn pow3(n: nat) -> int
    decreases n,
{
    if n == 0 {
        1
    } else {
        3 * pow3((n - 1) as nat)
    }
}

/// The magnitude of a number whose pairs are nested no deeper than `h`
/// is at most the sum of its plain numbers times three to the power of
/// `h`.
pub proof fn lemma_mag_bound(t: SnailNum, h: nat)
    requires
        height(t) <= h,
    ensures
        0 <= mag_spec(t) <= pow3(h) * total(t),
        0 <= total(t),
        pow3(h) >= 1,
    decreases t,
{
    lemma_pow3_positive(h);
    match t {
        SnailNum::Lit(n) => {
            let p = pow3(h);
            assert(n <= p * n) by (nonlinear_arith)
                requires
                    p >= 1,
                    n >= 0,
            ;
        },
        SnailNum::Pair(a, b) => {
            let g = (h - 1) as nat;
            lemma_mag_bound(*a, g);
            lemma_mag_bound(*b, g);
            let p = pow3(g);
            let ma = mag_spec(*a);
            let mb = mag_spec(*b);
            let ta = total(*a);
            let tb = total(*b);
            assert(3 * ma + 2 * mb <= (3 * p) * (ta + tb)) by (nonlinear_arith)
                requires
                    0 <= ma <= p * ta,
                    0 <= mb <= p * tb,
                    0 <= ta,
                    0 <= tb,
                    p >= 1,
            ;
        },
    }
}

pub proof fn lemma_pow3_positive(n: nat)
    ensures
        pow3(n) >= 1,
    decreases n,
{
    if n > 0 {
        lemma_pow3_positive((n - 1) as nat);
    }
}

/// Two numbers that are nested no deeper than four pairs and whose plain
/// numbers add up to no more than the 81st part of what `u32` holds can
/// be added and the magnitude of their sum taken.
pub proof fn lemma_addable(a: SnailNum, b: SnailNum)
    requires
        height(a) <= 4,
        height(b) <= 4,
        81 * (total(a) + total(b)) <= u32::MAX,
    ensures
        addable(a, b),
{
    let pair = SnailNum::Pair(Box::new(a), Box::new(b));
    lemma_total_nonneg(a);
    lemma_total_nonneg(b);
    lemma_flat(pair);
    lemma_reducible(pair);
    let n = choose|n: nat| settles_in(pair, n);
    lemma_rounds_bounds(pair, n);
    lemma_mag_bound(reduced(pair), 4);
    assert(pow3(4) == 81) by {
        reveal_with_fuel(pow3, 5);
    }
    let t = total(reduced(pair));
    let m = total(a) + total(b);
    assert(81 * t <= 81 * m) by (nonlinear_arith)
        requires
            t <= m,
    ;
}

/// The greatest magnitude of a sum of two different numbers of the list,
/// in either order; 0 when the list has fewer than two numbers.
pub fn best_pair(data: &Vec<SnailNum>) -> (best: u32)
    requires
        forall|i: int, j: int|
            0 <= i < data.len() && 0 <= j < data.len() && i != j ==> addable(data[i], data[j]),
    ensures
        forall|i: int, j: int|
            0 <= i < data.len() && 0 <= j < data.len() && i != j ==> pair_mag(data[i], data[j])
                <= best,
        best == 0 || exists|i: int, j: int|
            0 <= i < data.len() && 0 <= j < data.len() && i != j && best == pair_mag(
                data[i],
                data[j],
            ),
{
    let mut best: u32 = 0;
    let mut i: usize = 0;
    while i < data.len()
        invariant
            i <= data.len(),
            forall|a: int, b: int|
                0 <= a < data.len() && 0 <= b < data.len() && a != b ==> addable(data[a], data[b]),
            forall|a: int, b: int|
                0 <= a < i && 0 <= b < data.len() && a != b ==> pair_mag(data[a], data[b]) <= best,
            best == 0 || exists|a: int, b: int|
                0 <= a < data.len() && 0 <= b < data.len() && a != b && best == pair_mag(
                    data[a],
                    data[b],
                ),
        decreases data.len() - i,
    {
        let mut j: usize = 0;
        while j < data.len()
            invariant
                i < data.len(),
                j <= data.len(),
                forall|a: int, b: int|
                    0 <= a < data.len() && 0 <= b < data.len() && a != b ==> addable(
                        data[a],
                        data[b],
                    ),
                forall|a: int, b: int|
                    0 <= a < i && 0 <= b < data.len() && a != b ==> pair_mag(data[a], data[b])
                        <= best,
                forall|b: int| 0 <= b < j && b != i ==> pair_mag(data[i as int], data[b]) <= best,
                best == 0 || exists|a: int, b: int|
                    0 <= a < data.len() && 0 <= b < data.len() && a != b && best == pair_mag(
                        data[a],
                        data[b],
                    ),
            decreases data.len() - j,
        {
            if i != j {
                assert(addable(data[i as int], data[j as int]));
                let v = data[i].copy().add(data[j].copy()).mag();
                assert(v == pair_mag(data[i as int], data[j as int]));
                if best < v {
                    best = v;
                }
            }
            j = j + 1;
        }
        i = i + 1;
    }
    best
}

} // verus!
