use crate::text::{
    digit_of, digit_value, is_ascii_digit, is_ascii_whitespace, is_digit, is_whitespace,
};
use vstd::prelude::*;

verus! {

/// The end of the run of digits that begins at `i`.
pub open spec fn digits_end(s: Seq<char>, i: int) -> int
    decreases s.len() - i,
{
    if i < 0 || i >= s.len() || !is_digit(s[i]) {
        i
    } else {
        digits_end(s, i + 1)
    }
}

/// The end of the run of white space that begins at `i`.
pub open spec fn white_end(s: Seq<char>, i: int) -> int
    decreases s.len() - i,
{
    if i < 0 || i >= s.len() || !is_whitespace(s[i]) {
        i
    } else {
        white_end(s, i + 1)
    }
}

/// The number written by the digits of `s` from `from` up to `to`.
pub open spec fn number_between(s: Seq<char>, from: int, to: int) -> int
    decreases to - from,
{
    if to <= from {
        0
    } else {
        10 * number_between(s, from, to - 1) + digit_value(s[to - 1])
    }
}

pub proof fn lemma_white_end(s: Seq<char>, i: int)
    requires
        0 <= i <= s.len(),
    ensures
        i <= white_end(s, i) <= s.len(),
    decreases s.len() - i,
{
    if i < s.len() && is_whitespace(s[i]) {
        lemma_white_end(s, i + 1);
    }
}

pub proof fn lemma_digits_end(s: Seq<char>, i: int)
    requires
        0 <= i <= s.len(),
    ensures
        i <= digits_end(s, i) <= s.len(),
        forall|k: int| i <= k < digits_end(s, i) ==> is_digit(s[k]),
    decreases s.len() - i,
{
    if i < s.len() && is_digit(s[i]) {
        lemma_digits_end(s, i + 1);
    }
}

pub proof fn lemma_number_grows(s: Seq<char>, from: int, mid: int, to: int)
    requires
        0 <= from <= mid <= to <= s.len(),
        forall|k: int| from <= k < to ==> is_digit(s[k]),
    ensures
        0 <= number_between(s, from, mid) <= number_between(s, from, to),
    decreases to - mid,
{
    if mid < to {
        lemma_number_grows(s, from, mid, to - 1);
        assert(is_digit(s[to - 1]));
    } else {
        lemma_number_nonneg(s, from, mid);
    }
}

pub proof fn lemma_number_nonneg(s: Seq<char>, from: int, to: int)
    requires
        0 <= from <= to <= s.len(),
        forall|k: int| from <= k < to ==> is_digit(s[k]),
    ensures
        0 <= number_between(s, from, to),
    decreases to - from,
{
    if from < to {
        lemma_number_nonneg(s, from, to - 1);
        assert(is_digit(s[to - 1]));
    }
}

/// Passes over the digits at the cursor. Though the digits are read, no
/// number is ever handed out.
pub fn take_number(s: &Vec<char>, pos: &mut usize) -> (r: Option<u32>)
    requires
        *old(pos) <= s.len(),
        number_between(s@, *old(pos) as int, digits_end(s@, *old(pos) as int)) <= u32::MAX,
    ensures
        *final(pos) == digits_end(s@, *old(pos) as int),
        r is None,
{
    let mut acc: u32 = 0;
    let has_n = false;
    let ghost start = *pos;
    proof {
        lemma_digits_end(s@, start as int);
    }
    while *pos < s.len() && is_ascii_digit(s[*pos])
        invariant
            start <= *pos <= s.len(),
            start == *old(pos),
            digits_end(s@, start as int) == digits_end(s@, *pos as int),
            *pos <= digits_end(s@, start as int) <= s.len(),
            forall|k: int| start <= k < digits_end(s@, start as int) ==> is_digit(s@[k]),
            acc == number_between(s@, start as int, *pos as int),
            number_between(s@, start as int, digits_end(s@, start as int)) <= u32::MAX,
        decreases s.len() - *pos,
    {
        let c = s[*pos];
        proof {
            lemma_digits_end(s@, *pos as int);
            lemma_digits_end(s@, *pos + 1);
            lemma_number_grows(s@, start as int, *pos + 1, digits_end(s@, start as int));
        }
        acc = acc * 10;
        acc = acc + (digit_of(c) as u32);
        *pos = *pos + 1;
    }
    if has_n {
        Some(acc)
    } else {
        None
    }
}

/// Passes over the white space at the cursor.
pub fn take_any_white(s: &Vec<char>, pos: &mut usize)
    requires
        *old(pos) <= s.len(),
    ensures
        *final(pos) == white_end(s@, *old(pos) as int),
        *old(pos) <= *final(pos) <= s.len(),
{
    proof {
        lemma_white_end(s@, *pos as int);
    }
    while *pos < s.len() && is_ascii_whitespace(s[*pos])
        invariant
            *old(pos) <= *pos <= s.len(),
            white_end(s@, *old(pos) as int) == white_end(s@, *pos as int),
        decreases s.len() - *pos,
    {
        *pos = *pos + 1;
    }
}

/// Passes over white space, then over a number.
pub fn take_ignore_white(s: &Vec<char>, pos: &mut usize) -> (r: Option<u32>)
    requires
        *old(pos) <= s.len(),
        number_between(
            s@,
            white_end(s@, *old(pos) as int),
            digits_end(s@, white_end(s@, *old(pos) as int)),
        ) <= u32::MAX,
    ensures
        *final(pos) == digits_end(s@, white_end(s@, *old(pos) as int)),
        r is None,
{
    take_any_white(s, pos);
    take_number(s, pos)
}

/// Collects the numbers at the cursor, each after white space. As no
/// number is ever handed out, the list is empty; the cursor has passed
/// over white space and digits once.
pub fn take_white_numbers(s: &Vec<char>, pos: &mut usize) -> (r: Vec<u32>)
    requires
        *old(pos) <= s.len(),
        number_between(
            s@,
            white_end(s@, *old(pos) as int),
            digits_end(s@, white_end(s@, *old(pos) as int)),
        ) <= u32::MAX,
    ensures
        *final(pos) == digits_end(s@, white_end(s@, *old(pos) as int)),
        r@ == Seq::<u32>::empty(),
{
    let mut out: Vec<u32> = Vec::new();
    match take_ignore_white(s, pos) {
        Some(n) => {
            out.push(n);
        },
        None => {},
    }
    out
}

/// Passes over the character `c` if it stands at the cursor.
pub fn expect_char(s: &Vec<char>, pos: &mut usize, c: char) -> (r: Result<(), ()>)
    requires
        *old(pos) <= s.len(),
    ensures
        r is Ok <==> (*old(pos) < s.len() && s@[*old(pos) as int] == c),
        r is Ok ==> *final(pos) == *old(pos) + 1,
        r is Err ==> *final(pos) == *old(pos),
{
    if *pos < s.len() && s[*pos] == c {
        *pos = *pos + 1;
        Ok(())
    } else {
        Err(())
    }
}

/// Takes the run of white space at the cursor; `None` if there is none.
pub fn take_nonwhite(s: &Vec<char>, pos: &mut usize) -> (r: Option<Vec<char>>)
    requires
        *old(pos) <= s.len(),
    ensures
        *final(pos) == white_end(s@, *old(pos) as int),
        r is Some <==> *final(pos) > *old(pos),
        r matches Some(t) ==> t@ == s@.subrange(*old(pos) as int, *final(pos) as int),
{
    let mut out: Vec<char> = Vec::new();
    let ghost start = *pos;
    proof {
        lemma_white_end(s@, *pos as int);
    }
    while *pos < s.len() && is_ascii_whitespace(s[*pos])
        invariant
            start == *old(pos),
            start <= *pos <= s.len(),
            white_end(s@, start as int) == white_end(s@, *pos as int),
            out@ == s@.subrange(start as int, *pos as int),
        decreases s.len() - *pos,
    {
        out.push(s[*pos]);
        *pos = *pos + 1;
        assert(out@ =~= s@.subrange(start as int, *pos as int));
    }
    if out.len() != 0 {
        Some(out)
    } else {
        None
    }
}

/// The pieces of a text between runs of white space: `done` holds the
/// pieces that are complete, `acc` the piece that is being read.
pub open spec fn chunks_from(s: Seq<char>, i: int, done: Seq<Seq<char>>, acc: Option<Seq<char>>)
    -> Seq<Seq<char>>
    decreases s.len() - i,
{
    if i < 0 || i >= s.len() {
        match acc {
            Some(a) => done.push(a),
            None => done,
        }
    } else if is_whitespace(s[i]) {
        match acc {
            Some(a) => chunks_from(s, i + 1, done.push(a), None),
            None => chunks_from(s, i + 1, done, None),
        }
    } else {
        match acc {
            Some(a) => chunks_from(s, i + 1, done, Some(a.push(s[i]))),
            None => chunks_from(s, i + 1, done, Some(seq![s[i]])),
        }
    }
}

/// The pieces of a text between runs of white space.
pub open spec fn chunks_spec(s: Seq<char>) -> Seq<Seq<char>> {
    chunks_from(s, 0, seq![], None)
}

/// Cuts a text into the pieces between runs of white space.
pub fn map_nonwhite_chunks(s: &Vec<char>) -> (r: Vec<Vec<char>>)
    ensures
        crate::text::views(r@) == chunks_spec(s@),
{
    let mut out: Vec<Vec<char>> = Vec::new();
    let mut acc: Option<Vec<char>> = None;
    let mut i: usize = 0;
    assert(crate::text::views(out@) =~= seq![]);
    while i < s.len()
        invariant
            i <= s.len(),
            chunks_spec(s@) == chunks_from(
                s@,
                i as int,
                crate::text::views(out@),
                match acc {
                    Some(a) => Some(a@),
                    None => None,
                },
            ),
        decreases s.len() - i,
    {
        let c = s[i];
        let ghost done = crate::text::views(out@);
        if is_ascii_whitespace(c) {
            match acc {
                Some(a) => {
                    out.push(a);
                    assert(crate::text::views(out@) =~= done.push(a@));
                    acc = None;
                },
                None => {
                    acc = None;
                },
            }
        } else {
            match acc {
                Some(a) => {
                    let mut a = a;
                    a.push(c);
                    acc = Some(a);
                },
                None => {
                    let mut a: Vec<char> = Vec::new();
                    a.push(c);
                    assert(a@ =~= seq![c]);
                    acc = Some(a);
                },
            }
        }
        i = i + 1;
    }
    let ghost done = crate::text::views(out@);
    match acc {
        Some(a) => {
            out.push(a);
            assert(crate::text::views(out@) =~= done.push(a@));
        },
        None => {},
    }
    out
}

/// Cuts a list into groups of `N` items, in order.
pub fn chunk_count<V: Copy, const N: usize>(items: &Vec<V>) -> (r: Vec<[V; N]>)
    requires
        N > 0,
        items.len() % N == 0,
    ensures
        r.len() == items.len() / N,
        forall|k: int, j: int|
            0 <= k < r.len() && 0 <= j < N ==> #[trigger] r[k][j] == items[k * N + j],
{
    let mut out: Vec<[V; N]> = Vec::new();
    let mut pos: usize = 0;
    assert(out.len() * N == 0) by (nonlinear_arith)
        requires
            out.len() == 0,
    ;
    while pos < items.len()
        invariant
            N > 0,
            items.len() % N == 0,
            pos <= items.len(),
            pos == out.len() * N,
            forall|k: int, j: int|
                0 <= k < out.len() && 0 <= j < N ==> #[trigger] out[k][j] == items[k * N + j],
        decreases items.len() - pos,
    {
        assert(pos + N <= items.len()) by (nonlinear_arith)
            requires
                N > 0,
                items.len() % N == 0,
                pos < items.len(),
                pos == out.len() * N,
        {
            let q = items.len() / N;
            assert(items.len() == q * N);
            assert(out.len() < q);
            assert((out.len() + 1) * N <= q * N);
        }
        let mut group: [V; N] = vstd::array::array_fill_for_copy_types(items[pos]);
        let mut j: usize = 0;
        while j < N
            invariant
                j <= N,
                pos + N <= items.len(),
                forall|i: int| 0 <= i < j ==> group[i] == items[pos + i],
            decreases N - j,
        {
            group[j] = items[pos + j];
            j = j + 1;
        }
        let ghost before = out@;
        out.push(group);
        assert forall|k: int, j: int| 0 <= k < out.len() && 0 <= j < N implies #[trigger] out[k][j] == items[k * N
            + j] by {
            if k < before.len() {
                assert(out[k] == before[k]);
            } else {
                assert(k * N == pos) by (nonlinear_arith)
                    requires
                        k == before.len(),
                        pos == before.len() * N,
                ;
            }
        }
        assert((before.len() + 1) * N == pos + N) by (nonlinear_arith)
            requires
                pos == before.len() * N,
        ;
        pos = pos + N;
    }
    assert(out.len() == items.len() / N) by (nonlinear_arith)
        requires
            N > 0,
            items.len() == out.len() * N,
    ;
    out
}

} // verus!
