use crate::pattern;
use crate::wiring::{lemma_true_digits, mixes, shown, shows_all};
use vstd::prelude::*;

verus! {

/// The number of bits that are set in `x`.
pub open spec fn popcount(x: u32) -> nat
    decreases x,
{
    if x == 0 {
        0
    } else {
        (x % 2) as nat + popcount(x / 2)
    }
}

/// `u32::count_ones`: the number of bits that are set.
pub assume_specification[ u32::count_ones ](x: u32) -> (r: u32)
    ensures
        r == popcount(x),
;

/// A set of the seven wires `a` to `g`, one bit for each.
#[derive(Copy, Clone, PartialEq, Eq, Structural, Debug, Hash)]
pub struct LetterSet {
    pub inner: u32,
}

impl LetterSet {
    /// The set of wires with the given bits.
    pub fn new(num: u32) -> (r: LetterSet)
        ensures
            r.inner == num,
    {
        LetterSet { inner: num }
    }

    /// The number of wires in the set.
    pub fn letter_cnt(&self) -> (r: u32)
        ensures
            r == popcount(self.inner),
    {
        self.inner.count_ones()
    }

    /// The wires of either set.
    pub fn bitor(self, rhs: LetterSet) -> (r: LetterSet)
        ensures
            r.inner == self.inner | rhs.inner,
    {
        LetterSet { inner: self.inner | rhs.inner }
    }

    /// Adds the wires of `rhs`.
    pub fn bitor_assign(&mut self, rhs: LetterSet)
        ensures
            final(self).inner == old(self).inner | rhs.inner,
    {
        self.inner = self.inner | rhs.inner;
    }

    /// The wires of both sets.
    pub fn bitand(self, rhs: LetterSet) -> (r: LetterSet)
        ensures
            r.inner == self.inner & rhs.inner,
    {
        LetterSet { inner: self.inner & rhs.inner }
    }

    /// The wires of just one of the sets.
    pub fn bitxor(self, rhs: LetterSet) -> (r: LetterSet)
        ensures
            r.inner == self.inner ^ rhs.inner,
    {
        LetterSet { inner: self.inner ^ rhs.inner }
    }
}

/// The bit that stands for a wire.
pub open spec fn wire_bit(c: char) -> Option<u32> {
    if c == 'a' {
        Some(1u32)
    } else if c == 'b' {
        Some(2u32)
    } else if c == 'c' {
        Some(4u32)
    } else if c == 'd' {
        Some(8u32)
    } else if c == 'e' {
        Some(16u32)
    } else if c == 'f' {
        Some(32u32)
    } else if c == 'g' {
        Some(64u32)
    } else {
        None
    }
}

/// The set of wires that a word names; `None` when a character of it is
/// no wire.
pub open spec fn word_set(s: Seq<char>) -> Option<u32>
    decreases s.len(),
{
    if s.len() == 0 {
        Some(0u32)
    } else {
        match (word_set(s.drop_last()), wire_bit(s.last())) {
            (Some(acc), Some(bit)) => Some(acc | bit),
            _ => None,
        }
    }
}

pub proof fn lemma_word_fail(s: Seq<char>, n: int)
    requires
        0 <= n <= s.len(),
        word_set(s.subrange(0, n)) is None,
    ensures
        word_set(s) is None,
    decreases s.len() - n,
{
    if n == s.len() {
        assert(s.subrange(0, n) =~= s);
    } else {
        assert(s.drop_last().subrange(0, n) =~= s.subrange(0, n));
        lemma_word_fail(s.drop_last(), n);
    }
}

fn read_word(s: &Vec<char>) -> (r: Option<LetterSet>)
    ensures
        match r {
            Some(v) => word_set(s@) == Some(v.inner),
            None => word_set(s@) is None,
        },
{
    let mut acc = LetterSet::new(0);
    let mut i: usize = 0;
    while i < s.len()
        invariant
            i <= s.len(),
            word_set(s@.subrange(0, i as int)) == Some(acc.inner),
        decreases s.len() - i,
    {
        proof {
            assert(s@.subrange(0, i + 1).drop_last() =~= s@.subrange(0, i as int));
            assert(s@.subrange(0, i + 1).last() == s@[i as int]);
        }
        let c = s[i];
        let bit: u32 = if c == 'a' {
            1
        } else if c == 'b' {
            2
        } else if c == 'c' {
            4
        } else if c == 'd' {
            8
        } else if c == 'e' {
            16
        } else if c == 'f' {
            32
        } else if c == 'g' {
            64
        } else {
            proof {
                lemma_word_fail(s@, i + 1);
            }
            return None;
        };
        acc = acc.bitor(LetterSet::new(bit));
        i = i + 1;
    }
    assert(s@.subrange(0, i as int) =~= s@);
    Some(acc)
}

/// The sets of wires that the words of an entry name; the bar between
/// patterns and output, and words that are missing, are passed over.
/// `None` when a word holds a character that is no wire.
pub open spec fn entry_of(words: Seq<Option<Seq<char>>>) -> Option<Seq<LetterSet>>
    decreases words.len(),
{
    if words.len() == 0 {
        Some(seq![])
    } else {
        match entry_of(words.drop_last()) {
            Some(rest) => match words.last() {
                Some(w) => if w == seq!['|'] {
                    Some(rest)
                } else {
                    match word_set(w) {
                        Some(bits) => Some(rest.push(LetterSet { inner: bits })),
                        None => None,
                    }
                },
                None => Some(rest),
            },
            None => None,
        }
    }
}

pub proof fn lemma_entry_fail(words: Seq<Option<Seq<char>>>, n: int)
    requires
        0 <= n <= words.len(),
        entry_of(words.subrange(0, n)) is None,
    ensures
        entry_of(words) is None,
    decreases words.len() - n,
{
    if n == words.len() {
        assert(words.subrange(0, n) =~= words);
    } else {
        assert(words.drop_last().subrange(0, n) =~= words.subrange(0, n));
        lemma_entry_fail(words.drop_last(), n);
    }
}

/// Turns the words of an entry into sets of wires.
pub fn entry_from(words: &Vec<Option<Vec<char>>>) -> (r: Option<Vec<LetterSet>>)
    ensures
        (match r {
            Some(v) => Some(v@),
            None => None,
        }) == entry_of(pattern::groups_view(words@)),
{
    let ghost all = pattern::groups_view(words@);
    let mut out: Vec<LetterSet> = Vec::new();
    let mut i: usize = 0;
    while i < words.len()
        invariant
            i <= words.len(),
            all == pattern::groups_view(words@),
            Some(out@) == entry_of(all.subrange(0, i as int)),
        decreases words.len() - i,
    {
        proof {
            assert(all.subrange(0, i + 1).drop_last() =~= all.subrange(0, i as int));
            assert(all.subrange(0, i + 1).last() == all[i as int]);
        }
        match &words[i] {
            Some(w) => {
                let is_bar = w.len() == 1 && w[0] == '|';
                proof {
                    if is_bar {
                        assert(w@ =~= seq!['|']);
                    } else if w.len() == 1 {
                        assert(seq!['|'][0] == '|');
                    }
                }
                if !is_bar {
                    match read_word(w) {
                        Some(set) => {
                            out.push(set);
                        },
                        None => {
                            proof {
                                lemma_entry_fail(all, i + 1);
                            }
                            return None;
                        },
                    }
                }
            },
            None => {},
        }
        i = i + 1;
    }
    assert(all.subrange(0, i as int) =~= all);
    Some(out)
}

/// Reads one entry: the words of the line, each a set of wires.
pub fn read_line(line: &Vec<char>) -> (r: Option<Vec<LetterSet>>)
    ensures
        (match r {
            Some(v) => Some(v@),
            None => None,
        }) == (match pattern::regex_first_groups("(\\S+)"@, line@) {
            Some(words) => entry_of(words),
            None => None,
        }),
{
    match pattern::first_groups("(\\S+)", line) {
        Some(words) => entry_from(&words),
        None => None,
    }
}

/// Reads the entries, one from each line.
pub fn read_data(lines: &Vec<Vec<char>>) -> (r: Option<Vec<Vec<LetterSet>>>)
    ensures
        r matches Some(v) ==> v.len() == lines.len() && forall|i: int|
            0 <= i < v.len() ==> (match pattern::regex_first_groups("(\\S+)"@, lines[i]@) {
                Some(words) => entry_of(words),
                None => None,
            }) == Some((#[trigger] v[i])@),
        r is None ==> exists|i: int|
            0 <= i < lines.len() && (match pattern::regex_first_groups(
                "(\\S+)"@,
                (#[trigger] lines[i])@,
            ) {
                Some(words) => entry_of(words),
                None => None,
            }) is None,
{
    let mut out: Vec<Vec<LetterSet>> = Vec::new();
    let mut i: usize = 0;
    while i < lines.len()
        invariant
            i <= lines.len(),
            out.len() == i,
            forall|k: int|
                0 <= k < i ==> (match pattern::regex_first_groups("(\\S+)"@, lines[k]@) {
                    Some(words) => entry_of(words),
                    None => None,
                }) == Some((#[trigger] out[k])@),
        decreases lines.len() - i,
    {
        match read_line(&lines[i]) {
            Some(entry) => {
                out.push(entry);
            },
            None => {
                return None;
            },
        }
        i = i + 1;
    }
    Some(out)
}

/// The digits 1, 4 and 7 as the first `n` patterns show them: the last
/// pattern of two, four and three wires.
pub open spec fn easy_digits(digits: Seq<LetterSet>, n: int) -> (u32, u32, u32)
    decreases n,
{
    if n <= 0 {
        (0, 0, 0)
    } else {
        let rest = easy_digits(digits, n - 1);
        let d = digits[n - 1].inner;
        if popcount(d) == 2 {
            (d, rest.1, rest.2)
        } else if popcount(d) == 4 {
            (rest.0, d, rest.2)
        } else if popcount(d) == 3 {
            (rest.0, rest.1, d)
        } else {
            rest
        }
    }
}

/// The digits 3 and 6 as the first `n` patterns show them, given the
/// pattern `one` of the digit 1: 6 is the last pattern, other than all
/// seven wires, that together with `one` has all seven; 3 is the last
/// other pattern that differs from `one` in three wires.
pub open spec fn hard_digits(digits: Seq<LetterSet>, one: u32, n: int) -> (u32, u32)
    decreases n,
{
    if n <= 0 {
        (0, 0)
    } else {
        let rest = hard_digits(digits, one, n - 1);
        let d = digits[n - 1].inner;
        if d == 127 {
            rest
        } else if d | one == 127 {
            (rest.0, d)
        } else if popcount(d ^ one) == 3 {
            (d, rest.1)
        } else {
            rest
        }
    }
}

/// The patterns of the ten digits, worked out from the patterns seen.
pub open spec fn true_digits_spec(digits: Seq<LetterSet>) -> Seq<u32> {
    let easy = easy_digits(digits, digits.len() as int);
    let one = easy.0;
    let four = easy.1;
    let seven = easy.2;
    let hard = hard_digits(digits, one, digits.len() as int);
    let three = hard.0;
    let six = hard.1;
    let eight = 127u32;
    let nine = three | four;
    let two = one ^ three ^ six ^ nine;
    let five = one ^ two ^ three ^ eight;
    let zero = two ^ four ^ six ^ eight;
    seq![zero, one, two, three, four, five, six, seven, eight, nine]
}

pub open spec fn inners(s: Seq<LetterSet>) -> Seq<u32> {
    s.map_values(|l: LetterSet| l.inner)
}

/// Works out which pattern shows which digit.
pub fn get_true_digits(digits: &Vec<LetterSet>) -> (ret: [LetterSet; 10])
    ensures
        inners(ret@) == true_digits_spec(digits@),
        forall|f: spec_fn(u32) -> u32, d: int|
            mixes(f) && #[trigger] shows_all(digits@, f) && 0 <= d < 10 ==> ret@[d].inner
                == #[trigger] shown(f, d),
{
    proof {
        assert forall|f: spec_fn(u32) -> u32, d: int|
            mixes(f) && #[trigger] shows_all(digits@, f) && 0 <= d < 10 implies true_digits_spec(
            digits@,
        )[d] == #[trigger] shown(f, d) by {
            lemma_true_digits(digits@, f);
        }
    }
    let mut ret = [LetterSet::new(0); 10];
    ret[8] = LetterSet::new(127);
    let mut i: usize = 0;
    while i < digits.len()
        invariant
            i <= digits.len(),
            ret@[8].inner == 127,
            (ret@[1].inner, ret@[4].inner, ret@[7].inner) == easy_digits(digits@, i as int),
        decreases digits.len() - i,
    {
        let d = digits[i];
        let n = d.letter_cnt();
        if n == 2 {
            ret[1] = d;
        } else if n == 4 {
            ret[4] = d;
        } else if n == 3 {
            ret[7] = d;
        }
        i = i + 1;
    }
    let ghost easy = easy_digits(digits@, digits.len() as int);
    let mut i: usize = 0;
    ret[3] = LetterSet::new(0);
    ret[6] = LetterSet::new(0);
    while i < digits.len()
        invariant
            i <= digits.len(),
            ret@[8].inner == 127,
            (ret@[1].inner, ret@[4].inner, ret@[7].inner) == easy,
            (ret@[3].inner, ret@[6].inner) == hard_digits(digits@, easy.0, i as int),
        decreases digits.len() - i,
    {
        let d = digits[i];
        if d == LetterSet::new(127) {
        } else if d.bitor(ret[1]) == LetterSet::new(127) {
            ret[6] = d;
        } else if d.bitxor(ret[1]).letter_cnt() == 3 {
            ret[3] = d;
        }
        i = i + 1;
    }
    ret[9] = ret[3].bitor(ret[4]);
    ret[2] = ret[1].bitxor(ret[3]).bitxor(ret[6]).bitxor(ret[9]);
    ret[5] = ret[1].bitxor(ret[2]).bitxor(ret[3]).bitxor(ret[8]);
    ret[0] = ret[2].bitxor(ret[4]).bitxor(ret[6]).bitxor(ret[8]);
    assert(inners(ret@) =~= true_digits_spec(digits@));
    ret
}

/// Whether a pattern of `n` wires shows one of the digits 1, 4, 7 and 8.
pub open spec fn is_easy(n: nat) -> bool {
    n == 2 || n == 4 || n == 3 || n == 7
}

/// The number of easy digits among the output values of an entry among
/// its first `n` words; the output begins after ten words.
pub open spec fn easy_in(entry: Seq<LetterSet>, n: int) -> int
    decreases n,
{
    if n <= 10 {
        0
    } else {
        easy_in(entry, n - 1) + (if is_easy(popcount(entry[n - 1].inner)) {
            1int
        } else {
            0int
        })
    }
}

/// The number of easy digits in the output values of the first `n`
/// entries.
pub open spec fn easy_total(data: Seq<Seq<LetterSet>>, n: int) -> int
    decreases n,
{
    if n <= 0 {
        0
    } else {
        easy_total(data, n - 1) + easy_in(data[n - 1], data[n - 1].len() as int)
    }
}

pub open spec fn entries_view(d: Seq<Vec<LetterSet>>) -> Seq<Seq<LetterSet>> {
    d.map_values(|e: Vec<LetterSet>| e@)
}

pub proof fn lemma_easy_in_bounds(entry: Seq<LetterSet>, n: int)
    ensures
        0 <= easy_in(entry, n),
        n >= 0 ==> easy_in(entry, n) <= n,
    decreases n,
{
    if n > 10 {
        lemma_easy_in_bounds(entry, n - 1);
    }
}

fn count_easy(entry: &Vec<LetterSet>) -> (count: usize)
    ensures
        count == easy_in(entry@, entry.len() as int),
{
    let mut count: usize = 0;
    let mut k: usize = 10;
    proof {
        lemma_easy_in_bounds(entry@, 10);
        lemma_easy_in_bounds(entry@, entry.len() as int);
    }
    if entry.len() < 10 {
        return 0;
    }
    while k < entry.len()
        invariant
            10 <= k <= entry.len(),
            count == easy_in(entry@, k as int),
            count <= k,
        decreases entry.len() - k,
    {
        let n = entry[k].letter_cnt();
        if n == 2 || n == 4 || n == 3 || n == 7 {
            count = count + 1;
        }
        k = k + 1;
    }
    count
}

/// Counts the output values that show one of the digits 1, 4, 7 and 8.
/// `None` when the count leaves the range of `usize`.
pub fn p1(data: &Vec<Vec<LetterSet>>) -> (r: Option<usize>)
    ensures
        r matches Some(v) ==> v == easy_total(entries_view(data@), data.len() as int),
        r is None ==> easy_total(entries_view(data@), data.len() as int) > usize::MAX,
{
    let ghost view = entries_view(data@);
    let mut total: usize = 0;
    let mut i: usize = 0;
    while i < data.len()
        invariant
            i <= data.len(),
            view == entries_view(data@),
            total == easy_total(view, i as int),
        decreases data.len() - i,
    {
        assert(view[i as int] == data@[i as int]@);
        let count = count_easy(&data[i]);
        total = match total.checked_add(count) {
            Some(v) => v,
            None => {
                proof {
                    lemma_easy_total_grows(view, i + 1, data.len() as int);
                }
                return None;
            },
        };
        i = i + 1;
    }
    Some(total)
}

pub proof fn lemma_easy_total_grows(data: Seq<Seq<LetterSet>>, n: int, m: int)
    requires
        0 <= n <= m,
    ensures
        easy_total(data, n) <= easy_total(data, m),
    decreases m - n,
{
    if n < m {
        lemma_easy_total_grows(data, n, m - 1);
        lemma_easy_in_bounds(data[m - 1], data[m - 1].len() as int);
    }
}

/// The digit whose pattern is `d`: the first of the ten that equals it.
pub open spec fn digit_shown(table: Seq<u32>, d: u32, from: int) -> Option<int>
    decreases 10 - from,
{
    if from < 0 || from >= 10 || from >= table.len() {
        None
    } else if table[from] == d {
        Some(from)
    } else {
        digit_shown(table, d, from + 1)
    }
}

/// The number that the four output values of an entry show, read as
/// decimal digits. `None` when the entry has fewer than fourteen words or
/// an output value shows no digit.
pub open spec fn output_value(entry: Seq<LetterSet>) -> Option<int> {
    if entry.len() < 14 {
        None
    } else {
        let table = true_digits_spec(entry.subrange(0, 10));
        match (
            digit_shown(table, entry[10].inner, 0),
            digit_shown(table, entry[11].inner, 0),
            digit_shown(table, entry[12].inner, 0),
            digit_shown(table, entry[13].inner, 0),
        ) {
            (Some(a), Some(b), Some(c), Some(d)) => Some(((a * 10 + b) * 10 + c) * 10 + d),
            _ => None,
        }
    }
}

fn find_digit(table: &[LetterSet; 10], d: LetterSet) -> (r: Option<u64>)
    ensures
        match r {
            Some(v) => digit_shown(inners(table@), d.inner, 0) == Some(v as int) && v < 10,
            None => digit_shown(inners(table@), d.inner, 0) is None,
        },
{
    let mut i: usize = 0;
    while i < 10
        invariant
            i <= 10,
            digit_shown(inners(table@), d.inner, 0) == digit_shown(inners(table@), d.inner, i as int),
        decreases 10 - i,
    {
        assert(inners(table@)[i as int] == table@[i as int].inner);
        if d == table[i] {
            return Some(i as u64);
        }
        i = i + 1;
    }
    None
}

/// Decodes the output value of one entry.
pub fn decode(entry: &Vec<LetterSet>) -> (r: Option<u64>)
    ensures
        match r {
            Some(v) => output_value(entry@) == Some(v as int),
            None => output_value(entry@) is None,
        },
{
    if entry.len() < 14 {
        return None;
    }
    let mut patterns: Vec<LetterSet> = Vec::new();
    let mut i: usize = 0;
    while i < 10
        invariant
            i <= 10,
            entry.len() >= 14,
            patterns@ == entry@.subrange(0, i as int),
        decreases 10 - i,
    {
        patterns.push(entry[i]);
        i = i + 1;
        assert(patterns@ =~= entry@.subrange(0, i as int));
    }
    let true_dig = get_true_digits(&patterns);
    match (
        find_digit(&true_dig, entry[10]),
        find_digit(&true_dig, entry[11]),
        find_digit(&true_dig, entry[12]),
        find_digit(&true_dig, entry[13]),
    ) {
        (Some(a), Some(b), Some(c), Some(d)) => Some(((a * 10 + b) * 10 + c) * 10 + d),
        _ => None,
    }
}

/// The sum of the output values of the first `n` entries; `None` when one
/// of them cannot be decoded.
pub open spec fn output_total(data: Seq<Seq<LetterSet>>, n: int) -> Option<int>
    decreases n,
{
    if n <= 0 {
        Some(0)
    } else {
        match (output_total(data, n - 1), output_value(data[n - 1])) {
            (Some(rest), Some(v)) => Some(rest + v),
            _ => None,
        }
    }
}

pub proof fn lemma_output_fail(data: Seq<Seq<LetterSet>>, n: int, m: int)
    requires
        0 <= n <= m,
        output_total(data, n) is None,
    ensures
        output_total(data, m) is None,
    decreases m - n,
{
    if n < m {
        lemma_output_fail(data, n, m - 1);
    }
}

/// Adds up the output values of all entries. `None` when an entry cannot
/// be decoded or the sum leaves the range of `u64`.
pub fn p2(data: &Vec<Vec<LetterSet>>) -> (r: Option<u64>)
    ensures
        r matches Some(v) ==> output_total(entries_view(data@), data.len() as int) == Some(v as int),
        r is None ==> match output_total(entries_view(data@), data.len() as int) {
            Some(v) => v > u64::MAX,
            None => true,
        },
{
    let ghost view = entries_view(data@);
    let mut sum: u64 = 0;
    let mut i: usize = 0;
    while i < data.len()
        invariant
            i <= data.len(),
            view == entries_view(data@),
            output_total(view, i as int) == Some(sum as int),
        decreases data.len() - i,
    {
        assert(view[i as int] == data@[i as int]@);
        match decode(&data[i]) {
            Some(v) => {
                match sum.checked_add(v) {
                    Some(s) => {
                        sum = s;
                    },
                    None => {
                        proof {
                            lemma_output_grows(view, i + 1, data.len() as int);
                        }
                        return None;
                    },
                }
            },
            None => {
                proof {
                    lemma_output_fail(view, i + 1, data.len() as int);
                }
                return None;
            },
        }
        i = i + 1;
    }
    Some(sum)
}

pub proof fn lemma_output_value_nonneg(entry: Seq<LetterSet>)
    ensures
        output_value(entry) matches Some(v) ==> v >= 0,
{
    if entry.len() >= 14 {
        let table = true_digits_spec(entry.subrange(0, 10));
        lemma_digit_shown(table, entry[10].inner, 0);
        lemma_digit_shown(table, entry[11].inner, 0);
        lemma_digit_shown(table, entry[12].inner, 0);
        lemma_digit_shown(table, entry[13].inner, 0);
    }
}

pub proof fn lemma_digit_shown(table: Seq<u32>, d: u32, from: int)
    requires
        0 <= from,
    ensures
        digit_shown(table, d, from) matches Some(v) ==> from <= v < 10,
    decreases 10 - from,
{
    if from < 10 && from < table.len() && table[from] != d {
        lemma_digit_shown(table, d, from + 1);
    }
}

pub proof fn lemma_output_grows(data: Seq<Seq<LetterSet>>, n: int, m: int)
    requires
        0 <= n <= m,
    ensures
        match (output_total(data, n), output_total(data, m)) {
            (Some(a), Some(b)) => 0 <= a <= b,
            _ => true,
        },
    decreases m - n,
{
    if n < m {
        lemma_output_grows(data, n, m - 1);
        lemma_output_value_nonneg(data[m - 1]);
    } else {
        lemma_output_nonneg(data, n);
    }
}

pub proof fn lemma_output_nonneg(data: Seq<Seq<LetterSet>>, n: int)
    ensures
        output_total(data, n) matches Some(a) ==> a >= 0,
    decreases n,
{
    if n > 0 {
        lemma_output_nonneg(data, n - 1);
        lemma_output_value_nonneg(data[n - 1]);
    }
}

} // verus!
