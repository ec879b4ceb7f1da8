use crate::segments::{
    digit_shown, easy_digits, hard_digits, output_value, popcount, true_digits_spec, LetterSet,
};
use vstd::prelude::*;

verus! {

/// The wires that the digit `d` lights on a display whose wires are in
/// order, one bit for each of the wires `a` to `g`.
pub open spec fn plain(d: int) -> u32 {
    if d == 0 {
        119
    } else if d == 1 {
        36
    } else if d == 2 {
        93
    } else if d == 3 {
        109
    } else if d == 4 {
        46
    } else if d == 5 {
        107
    } else if d == 6 {
        123
    } else if d == 7 {
        37
    } else if d == 8 {
        127
    } else {
        111
    }
}

/// Whether `f` mixes wires up as a display with crossed wires does: it
/// keeps the number of wires of every pattern, and the pattern of the
/// wires of either of two patterns, or of just one of them, becomes the
/// like pattern of what the two become.
#[verifier::opaque]
pub open spec fn mixes(f: spec_fn(u32) -> u32) -> bool {
    &&& forall|a: u32, b: u32|
        #![trigger f(a), f(b)]
        a < 128 && b < 128 ==> f(a | b) == f(a) | f(b) && f(a ^ b) == f(a) ^ f(b)
    &&& forall|a: u32| a < 128 ==> popcount(#[trigger] f(a)) == popcount(a) && f(a) < 128
}

/// What mixing up does to two patterns.
pub proof fn lemma_mix(f: spec_fn(u32) -> u32, a: u32, b: u32)
    requires
        mixes(f),
        a < 128,
        b < 128,
    ensures
        f(a | b) == f(a) | f(b),
        f(a ^ b) == f(a) ^ f(b),
        popcount(f(a)) == popcount(a),
        f(a) < 128,
        (a | b) < 128,
        (a ^ b) < 128,
{
    reveal(mixes);
    assert((a | b) < 128 && (a ^ b) < 128) by (bit_vector)
        requires
            a < 128,
            b < 128,
    ;
}

/// The pattern of the digit `d` on a display mixed up by `f`.
pub open spec fn shown(f: spec_fn(u32) -> u32, d: int) -> u32 {
    f(plain(d))
}

/// Whether `x` is the pattern of a digit on a display mixed up by `f`.
pub open spec fn a_digit(f: spec_fn(u32) -> u32, x: u32) -> bool {
    x == shown(f, 0) || x == shown(f, 1) || x == shown(f, 2) || x == shown(f, 3) || x == shown(f, 4)
        || x == shown(f, 5) || x == shown(f, 6) || x == shown(f, 7) || x == shown(f, 8) || x
        == shown(f, 9)
}

/// Whether the pattern `x` stands among the first `n` patterns.
pub open spec fn seen(patterns: Seq<LetterSet>, x: u32, n: int) -> bool {
    exists|i: int| 0 <= i < n && (#[trigger] patterns[i]).inner == x
}

/// Whether the patterns are those of the ten digits on a display mixed
/// up by `f`, in some order.
pub open spec fn shows_all(patterns: Seq<LetterSet>, f: spec_fn(u32) -> u32) -> bool {
    &&& forall|i: int| 0 <= i < patterns.len() ==> a_digit(f, (#[trigger] patterns[i]).inner)
    &&& seen(patterns, shown(f, 0), patterns.len() as int)
    &&& seen(patterns, shown(f, 1), patterns.len() as int)
    &&& seen(patterns, shown(f, 2), patterns.len() as int)
    &&& seen(patterns, shown(f, 3), patterns.len() as int)
    &&& seen(patterns, shown(f, 4), patterns.len() as int)
    &&& seen(patterns, shown(f, 5), patterns.len() as int)
    &&& seen(patterns, shown(f, 6), patterns.len() as int)
    &&& seen(patterns, shown(f, 7), patterns.len() as int)
    &&& seen(patterns, shown(f, 8), patterns.len() as int)
    &&& seen(patterns, shown(f, 9), patterns.len() as int)
}

/// The patterns of the ten digits in numbers: how many wires each has,
/// which of them hold all wires together with the pattern of 1, and how
/// many wires they have apart from it.
pub proof fn lemma_plain(d: int)
    requires
        0 <= d < 10,
    ensures
        plain(d) < 128,
        popcount(plain(d)) == (if d == 1 {
            2nat
        } else if d == 7 {
            3nat
        } else if d == 4 {
            4nat
        } else if d == 8 {
            7nat
        } else if d == 2 || d == 3 || d == 5 {
            5nat
        } else {
            6nat
        }),
        (plain(d) | 36) < 128,
        (plain(d) ^ 36) < 128,
        (plain(d) | 36) == 127 <==> d == 6 || d == 8,
        popcount(plain(d) ^ 36) == 3 <==> d == 3,
{
    reveal_with_fuel(popcount, 9);
    assert((119u32 | 36) == 119 && (119u32 ^ 36) == 83) by (bit_vector);
    assert((36u32 | 36) == 36 && (36u32 ^ 36) == 0) by (bit_vector);
    assert((93u32 | 36) == 125 && (93u32 ^ 36) == 121) by (bit_vector);
    assert((109u32 | 36) == 109 && (109u32 ^ 36) == 73) by (bit_vector);
    assert((46u32 | 36) == 46 && (46u32 ^ 36) == 10) by (bit_vector);
    assert((107u32 | 36) == 111 && (107u32 ^ 36) == 79) by (bit_vector);
    assert((123u32 | 36) == 127 && (123u32 ^ 36) == 95) by (bit_vector);
    assert((37u32 | 36) == 37 && (37u32 ^ 36) == 1) by (bit_vector);
    assert((127u32 | 36) == 127 && (127u32 ^ 36) == 91) by (bit_vector);
    assert((111u32 | 36) == 111 && (111u32 ^ 36) == 75) by (bit_vector);
}

/// All seven wires are the one pattern of seven wires.
pub proof fn lemma_full(x: u32)
    requires
        x < 128,
    ensures
        popcount(x) == 7 <==> x == 127,
        popcount(x) <= 7,
{
    reveal_with_fuel(popcount, 9);
}

/// What tells the pattern of a digit on a display mixed up by `f`: the
/// number of its wires, whether it holds all wires, whether it does so
/// together with the pattern of 1, and whether it has three wires apart
/// from the pattern of 1.
pub proof fn lemma_shown(f: spec_fn(u32) -> u32, d: int)
    requires
        mixes(f),
        0 <= d < 10,
    ensures
        popcount(shown(f, d)) == popcount(plain(d)),
        shown(f, d) == 127 <==> d == 8,
        (shown(f, d) | shown(f, 1)) == 127 <==> d == 6 || d == 8,
        popcount(shown(f, d) ^ shown(f, 1)) == 3 <==> d == 3,
{
    let p = plain(d);
    lemma_plain(d);
    lemma_plain(1);
    lemma_mix(f, p, 36);
    lemma_mix(f, p | 36, 0);
    lemma_mix(f, p ^ 36, 0);
    lemma_full(p);
    lemma_full(f(p));
    lemma_full(p | 36);
    lemma_full(f(p | 36));
}

pub proof fn lemma_seen(patterns: Seq<LetterSet>, x: u32, n: int)
    requires
        0 < n <= patterns.len(),
    ensures
        seen(patterns, x, n) <==> seen(patterns, x, n - 1) || patterns[n - 1].inner == x,
{
    if seen(patterns, x, n) {
        let i = choose|i: int| 0 <= i < n && (#[trigger] patterns[i]).inner == x;
        if i < n - 1 {
            assert(seen(patterns, x, n - 1));
        }
    }
    if seen(patterns, x, n - 1) {
        let i = choose|i: int| 0 <= i < n - 1 && (#[trigger] patterns[i]).inner == x;
        assert(0 <= i < n && patterns[i].inner == x);
    }
    if patterns[n - 1].inner == x {
        assert(seen(patterns, x, n));
    }
}

pub proof fn lemma_all_shown(f: spec_fn(u32) -> u32)
    requires
        mixes(f),
    ensures
        forall|d: int|
            0 <= d < 10 ==> popcount(#[trigger] shown(f, d)) == popcount(plain(d)) && (shown(f, d)
                == 127 <==> d == 8) && ((shown(f, d) | shown(f, 1)) == 127 <==> d == 6 || d == 8)
                && (popcount(shown(f, d) ^ shown(f, 1)) == 3 <==> d == 3),
{
    assert forall|d: int| 0 <= d < 10 implies popcount(#[trigger] shown(f, d)) == popcount(
        plain(d),
    ) && (shown(f, d) == 127 <==> d == 8) && ((shown(f, d) | shown(f, 1)) == 127 <==> d == 6 || d
        == 8) && (popcount(shown(f, d) ^ shown(f, 1)) == 3 <==> d == 3) by {
        lemma_shown(f, d);
    }
}

/// What the patterns of 1, 4 and 7 are on a display mixed up by `f`.
pub proof fn lemma_easy(patterns: Seq<LetterSet>, f: spec_fn(u32) -> u32, n: int)
    requires
        mixes(f),
        0 <= n <= patterns.len(),
        forall|i: int| 0 <= i < patterns.len() ==> a_digit(f, (#[trigger] patterns[i]).inner),
    ensures
        seen(patterns, shown(f, 1), n) ==> easy_digits(patterns, n).0 == shown(f, 1),
        seen(patterns, shown(f, 4), n) ==> easy_digits(patterns, n).1 == shown(f, 4),
        seen(patterns, shown(f, 7), n) ==> easy_digits(patterns, n).2 == shown(f, 7),
    decreases n,
{
    if n > 0 {
        lemma_easy(patterns, f, n - 1);
        let x = patterns[n - 1].inner;
        assert(a_digit(f, x));
        lemma_all_shown(f);
        lemma_plain(0);
        lemma_plain(1);
        lemma_plain(2);
        lemma_plain(3);
        lemma_plain(4);
        lemma_plain(5);
        lemma_plain(6);
        lemma_plain(7);
        lemma_plain(8);
        lemma_plain(9);
        lemma_seen(patterns, shown(f, 1), n);
        lemma_seen(patterns, shown(f, 4), n);
        lemma_seen(patterns, shown(f, 7), n);
        assert(popcount(x) == 2 <==> x == shown(f, 1));
        assert(popcount(x) == 4 <==> x == shown(f, 4));
        assert(popcount(x) == 3 <==> x == shown(f, 7));
    } else {
        assert(!seen(patterns, shown(f, 1), n));
        assert(!seen(patterns, shown(f, 4), n));
        assert(!seen(patterns, shown(f, 7), n));
    }
}

/// What the patterns of 3 and 6 are on a display mixed up by `f`.
pub proof fn lemma_hard(patterns: Seq<LetterSet>, f: spec_fn(u32) -> u32, n: int)
    requires
        mixes(f),
        0 <= n <= patterns.len(),
        forall|i: int| 0 <= i < patterns.len() ==> a_digit(f, (#[trigger] patterns[i]).inner),
    ensures
        seen(patterns, shown(f, 3), n) ==> hard_digits(patterns, shown(f, 1), n).0 == shown(f, 3),
        seen(patterns, shown(f, 6), n) ==> hard_digits(patterns, shown(f, 1), n).1 == shown(f, 6),
    decreases n,
{
    if n > 0 {
        lemma_hard(patterns, f, n - 1);
        let one = shown(f, 1);
        let x = patterns[n - 1].inner;
        assert(a_digit(f, x));
        lemma_all_shown(f);
        lemma_seen(patterns, shown(f, 3), n);
        lemma_seen(patterns, shown(f, 6), n);
        assert(x == 127 <==> x == shown(f, 8));
        assert((x | one) == 127 <==> x == shown(f, 6) || x == shown(f, 8));
        assert(popcount(x ^ one) == 3 <==> x == shown(f, 3));
    } else {
        assert(!seen(patterns, shown(f, 3), n));
        assert(!seen(patterns, shown(f, 6), n));
    }
}

/// The patterns worked out from the ten patterns of a display with
/// crossed wires are those of its digits.
pub proof fn lemma_true_digits(patterns: Seq<LetterSet>, f: spec_fn(u32) -> u32)
    requires
        mixes(f),
        shows_all(patterns, f),
    ensures
        true_digits_spec(patterns).len() == 10,
        forall|d: int| 0 <= d < 10 ==> #[trigger] true_digits_spec(patterns)[d] == shown(f, d),
{
    let n = patterns.len() as int;
    lemma_easy(patterns, f, n);
    lemma_hard(patterns, f, n);
    let easy = easy_digits(patterns, n);
    let hard = hard_digits(patterns, easy.0, n);
    assert(easy.0 == f(36) && easy.1 == f(46) && easy.2 == f(37));
    assert(hard.0 == f(109) && hard.1 == f(123));
    lemma_shown(f, 8);
    assert(f(127) == 127);
    // 9 is 3 together with 4
    assert((109u32 | 46) == 111) by (bit_vector);
    lemma_mix(f, 109, 46);
    // 2 is what 1, 3, 6 and 9 differ in
    assert((36u32 ^ 109) == 73 && (73u32 ^ 123) == 50 && (50u32 ^ 111) == 93) by (bit_vector);
    lemma_mix(f, 36, 109);
    lemma_mix(f, 73, 123);
    lemma_mix(f, 50, 111);
    // 5 is what 1, 2, 3 and 8 differ in
    assert((36u32 ^ 93) == 121 && (121u32 ^ 109) == 20 && (20u32 ^ 127) == 107) by (bit_vector);
    lemma_mix(f, 36, 93);
    lemma_mix(f, 121, 109);
    lemma_mix(f, 20, 127);
    // 0 is what 2, 4, 6 and 8 differ in
    assert((93u32 ^ 46) == 115 && (115u32 ^ 123) == 8 && (8u32 ^ 127) == 119) by (bit_vector);
    lemma_mix(f, 93, 46);
    lemma_mix(f, 115, 123);
    lemma_mix(f, 8, 127);
    let out = true_digits_spec(patterns);
    assert(out[9] == f(111));
    assert(out[2] == f(93));
    assert(out[5] == f(107));
    assert(out[0] == f(119));
}

/// No two digits show the same pattern.
pub proof fn lemma_apart(f: spec_fn(u32) -> u32, d: int, e: int)
    requires
        mixes(f),
        0 <= d < 10,
        0 <= e < 10,
        shown(f, d) == shown(f, e),
    ensures
        d == e,
{
    let a = plain(d);
    let b = plain(e);
    lemma_plain(d);
    lemma_plain(e);
    lemma_mix(f, a, b);
    lemma_mix(f, a ^ b, 0);
    let x = f(a);
    assert((x ^ x) == 0) by (bit_vector);
    assert(popcount(0) == 0);
    assert(popcount(a ^ b) == 0);
    lemma_count_zero(a ^ b);
    assert(a == b) by (bit_vector)
        requires
            (a ^ b) == 0,
    ;
}

/// Only the pattern without wires has no wire.
pub proof fn lemma_count_zero(x: u32)
    requires
        popcount(x) == 0,
    ensures
        x == 0,
    decreases x,
{
    if x != 0 {
        lemma_count_zero(x / 2);
    }
}

/// The digit found for the pattern of a digit is that digit.
pub proof fn lemma_digit_shown(patterns: Seq<LetterSet>, f: spec_fn(u32) -> u32, d: int, from: int)
    requires
        mixes(f),
        shows_all(patterns, f),
        0 <= from <= d < 10,
    ensures
        digit_shown(true_digits_spec(patterns), shown(f, d), from) == Some(d),
    decreases 10 - from,
{
    lemma_true_digits(patterns, f);
    let table = true_digits_spec(patterns);
    assert(table[from] == shown(f, from));
    if from < d {
        if shown(f, from) == shown(f, d) {
            lemma_apart(f, from, d);
        }
        lemma_digit_shown(patterns, f, d, from + 1);
    }
}

/// The output value of an entry is the number that its four output
/// patterns show, digit by digit.
pub proof fn lemma_output_value(
    entry: Seq<LetterSet>,
    f: spec_fn(u32) -> u32,
    a: int,
    b: int,
    c: int,
    d: int,
)
    requires
        mixes(f),
        entry.len() >= 14,
        shows_all(entry.subrange(0, 10), f),
        0 <= a < 10 && entry[10].inner == shown(f, a),
        0 <= b < 10 && entry[11].inner == shown(f, b),
        0 <= c < 10 && entry[12].inner == shown(f, c),
        0 <= d < 10 && entry[13].inner == shown(f, d),
    ensures
        output_value(entry) == Some(((a * 10 + b) * 10 + c) * 10 + d),
{
    let patterns = entry.subrange(0, 10);
    lemma_digit_shown(patterns, f, a, 0);
    lemma_digit_shown(patterns, f, b, 0);
    lemma_digit_shown(patterns, f, c, 0);
    lemma_digit_shown(patterns, f, d, 0);
}

} // verus!
