use vstd::prelude::*;

verus! {

/// Whether `c` is one of the ten ASCII decimal digits.
pub open spec fn is_digit(c: char) -> bool {
    '0' <= c && c <= '9'
}

/// The number that an ASCII decimal digit stands for.
pub open spec fn digit_value(c: char) -> int {
    c as int - '0' as int
}

/// Whether every character of `s` is an ASCII decimal digit.
pub open spec fn all_digits(s: Seq<char>) -> bool {
    forall|i: int| 0 <= i < s.len() ==> is_digit(#[trigger] s[i])
}

/// The number written by a run of decimal digits, most significant first.
pub open spec fn digits_value(s: Seq<char>) -> int
    decreases s.len(),
{
    if s.len() == 0 {
        0
    } else {
        10 * digits_value(s.drop_last()) + digit_value(s.last())
    }
}

/// The integer that a text denotes: an optional sign followed by one or more
/// decimal digits. `None` when the text has any other shape.
pub open spec fn signed_value(s: Seq<char>) -> Option<int> {
    if s.len() == 0 {
        None
    } else if s[0] == '-' || s[0] == '+' {
        let d = s.subrange(1, s.len() as int);
        if d.len() > 0 && all_digits(d) {
            Some(
                if s[0] == '-' {
                    -digits_value(d)
                } else {
                    digits_value(d)
                },
            )
        } else {
            None
        }
    } else if all_digits(s) {
        Some(digits_value(s))
    } else {
        None
    }
}

/// The natural number that a text denotes: an optional `+` followed by one
/// or more decimal digits.
pub open spec fn unsigned_value(s: Seq<char>) -> Option<int> {
    if s.len() > 0 && s[0] == '-' {
        None
    } else {
        signed_value(s)
    }
}

/// The texts of a list of lines.
pub open spec fn views(v: Seq<Vec<char>>) -> Seq<Seq<char>> {
    v.map_values(|l: Vec<char>| l@)
}

/// What `str::parse` gives for an `i64`.
pub open spec fn i64_of(s: Seq<char>) -> Option<i64> {
    match signed_value(s) {
        Some(v) => if i64::MIN <= v <= i64::MAX {
            Some(v as i64)
        } else {
            None
        },
        None => None,
    }
}

/// What `str::parse` gives for an `i32`.
pub open spec fn i32_of(s: Seq<char>) -> Option<i32> {
    match signed_value(s) {
        Some(v) => if i32::MIN <= v <= i32::MAX {
            Some(v as i32)
        } else {
            None
        },
        None => None,
    }
}

/// What `str::parse` gives for a `u32`.
pub open spec fn u32_of(s: Seq<char>) -> Option<u32> {
    match unsigned_value(s) {
        Some(v) => if 0 <= v <= u32::MAX {
            Some(v as u32)
        } else {
            None
        },
        None => None,
    }
}

/// The characters that `char::is_ascii_whitespace` accepts.
pub open spec fn is_whitespace(c: char) -> bool {
    c == ' ' || c == '\t' || c == '\n' || c == '\x0C' || c == '\r'
}

/// Whether `c` is one of the ten ASCII decimal digits.
pub fn is_ascii_digit(c: char) -> (r: bool)
    ensures
        r == is_digit(c),
{
    c >= '0' && c <= '9'
}

/// Whether `c` is ASCII white space.
pub fn is_ascii_whitespace(c: char) -> (r: bool)
    ensures
        r == is_whitespace(c),
{
    c == ' ' || c == '\t' || c == '\n' || c == '\x0C' || c == '\r'
}

/// The number that an ASCII decimal digit stands for.
pub fn digit_of(c: char) -> (r: u8)
    requires
        is_digit(c),
    ensures
        r == digit_value(c),
        r <= 9,
{
    ((c as u32) - ('0' as u32)) as u8
}

pub proof fn lemma_digits_value_bounds(s: Seq<char>)
    requires
        all_digits(s),
    ensures
        0 <= digits_value(s),
    decreases s.len(),
{
    if s.len() > 0 {
        assert(is_digit(s[s.len() - 1]));
        lemma_digits_value_bounds(s.drop_last());
    }
}

/// A run of digits denotes at least as much as any of its prefixes.
pub proof fn lemma_digits_value_prefix(s: Seq<char>, i: int)
    requires
        all_digits(s),
        0 <= i <= s.len(),
    ensures
        digits_value(s.subrange(0, i)) <= digits_value(s),
    decreases s.len() - i,
{
    if i == s.len() {
        assert(s.subrange(0, i) =~= s);
    } else {
        lemma_digits_value_prefix(s.drop_last(), i);
        assert(s.drop_last().subrange(0, i) =~= s.subrange(0, i));
        assert(is_digit(s[s.len() - 1]));
        lemma_digits_value_bounds(s.drop_last());
    }
}

/// Reads the digits of `s` from `start` to the end as a number no larger
/// than `limit`.
pub fn parse_magnitude(s: &Vec<char>, start: usize, limit: u64) -> (r: Option<u64>)
    requires
        start <= s.len(),
    ensures
        r == (if start < s.len() && all_digits(s@.subrange(start as int, s.len() as int))
            && digits_value(s@.subrange(start as int, s.len() as int)) <= limit {
            Some(digits_value(s@.subrange(start as int, s.len() as int)) as u64)
        } else {
            None
        }),
        r matches Some(m) ==> m == digits_value(s@.subrange(start as int, s.len() as int)),
{
    if start >= s.len() {
        return None;
    }
    let ghost whole = s@.subrange(start as int, s.len() as int);
    let mut acc: u128 = 0;
    let mut i: usize = start;
    while i < s.len()
        invariant
            start <= i <= s.len(),
            whole == s@.subrange(start as int, s.len() as int),
            all_digits(whole.subrange(0, i - start)),
            acc == digits_value(whole.subrange(0, i - start)),
            acc <= limit,
        decreases s.len() - i,
    {
        let c: char = s[i];
        if !is_ascii_digit(c) {
            assert(!is_digit(whole[i - start]));
            return None;
        }
        let ghost next = whole.subrange(0, i + 1 - start);
        assert(next.drop_last() =~= whole.subrange(0, i - start));
        assert(next.last() == c);
        assert(all_digits(next)) by {
            assert forall|k: int| 0 <= k < next.len() implies is_digit(#[trigger] next[k]) by {
                if k < next.len() - 1 {
                    assert(next[k] == whole.subrange(0, i - start)[k]);
                }
            }
        }
        acc = acc * 10 + (digit_of(c) as u128);
        i = i + 1;
        if acc > limit as u128 {
            proof {
                if all_digits(whole) {
                    lemma_digits_value_prefix(whole, i - start);
                }
            }
            return None;
        }
    }
    assert(whole.subrange(0, i - start) =~= whole);
    Some(acc as u64)
}

/// Reads a text as an `i64`, as `str::parse` does.
pub fn parse_i64(s: &Vec<char>) -> (r: Option<i64>)
    ensures
        r == i64_of(s@),
{
    if s.len() == 0 {
        return None;
    }
    let first: char = s[0];
    if first == '-' {
        match parse_magnitude(s, 1, 0x8000_0000_0000_0000u64) {
            Some(m) => {
                if m == 0x8000_0000_0000_0000u64 {
                    Some(i64::MIN)
                } else {
                    Some(-(m as i64))
                }
            },
            None => {
                proof {
                    let d = s@.subrange(1, s.len() as int);
                    if all_digits(d) {
                        lemma_digits_value_bounds(d);
                    }
                }
                None
            },
        }
    } else if first == '+' {
        match parse_magnitude(s, 1, 0x7fff_ffff_ffff_ffffu64) {
            Some(m) => Some(m as i64),
            None => {
                proof {
                    let d = s@.subrange(1, s.len() as int);
                    if all_digits(d) {
                        lemma_digits_value_bounds(d);
                    }
                }
                None
            },
        }
    } else {
        assert(s@.subrange(0, s.len() as int) =~= s@);
        match parse_magnitude(s, 0, 0x7fff_ffff_ffff_ffffu64) {
            Some(m) => Some(m as i64),
            None => {
                proof {
                    if all_digits(s@) {
                        lemma_digits_value_bounds(s@);
                    }
                }
                None
            },
        }
    }
}

/// Reads a text as an `i32`, as `str::parse` does.
pub fn parse_i32(s: &Vec<char>) -> (r: Option<i32>)
    ensures
        r == i32_of(s@),
{
    match parse_i64(s) {
        Some(v) => {
            if v < -2147483648i64 || v > 2147483647i64 {
                None
            } else {
                Some(v as i32)
            }
        },
        None => {
            None
        },
    }
}

/// Reads a text as a `u32`, as `str::parse` does.
pub fn parse_u32(s: &Vec<char>) -> (r: Option<u32>)
    ensures
        r == u32_of(s@),
{
    if s.len() > 0 && s[0] == '-' {
        return None;
    }
    match parse_i64(s) {
        Some(v) => {
            proof {
                if s@[0] == '+' {
                    lemma_digits_value_bounds(s@.subrange(1, s.len() as int));
                } else {
                    lemma_digits_value_bounds(s@);
                }
            }
            if v > 4294967295i64 {
                None
            } else {
                Some(v as u32)
            }
        },
        None => {
            None
        },
    }
}

/// The least index at or after `i` where `c` stands in `s`, or the length of
/// `s` when there is none.
pub open spec fn position_from(s: Seq<char>, c: char, i: int) -> int
    decreases s.len() - i,
{
    if i >= s.len() {
        s.len() as int
    } else if s[i] == c {
        i
    } else {
        position_from(s, c, i + 1)
    }
}

/// The least index where `c` stands in `s`, or the length of `s`.
pub open spec fn position(s: Seq<char>, c: char) -> int {
    position_from(s, c, 0)
}

pub proof fn lemma_position_from(s: Seq<char>, c: char, i: int)
    requires
        0 <= i <= s.len(),
    ensures
        i <= position_from(s, c, i) <= s.len(),
        position_from(s, c, i) < s.len() ==> s[position_from(s, c, i)] == c,
        forall|j: int| i <= j < position_from(s, c, i) ==> s[j] != c,
    decreases s.len() - i,
{
    if i < s.len() && s[i] != c {
        lemma_position_from(s, c, i + 1);
    }
}

/// Whether `pat` stands in `s` at index `i`.
pub open spec fn matches_at(s: Seq<char>, pat: Seq<char>, i: int) -> bool {
    0 <= i && i + pat.len() <= s.len() && s.subrange(i, i + pat.len()) == pat
}

/// The least index at or after `i` where `pat` stands in `s`, or the length
/// of `s` when there is none.
pub open spec fn find_from(s: Seq<char>, pat: Seq<char>, i: int) -> int
    decreases s.len() - i,
{
    if i < 0 || i >= s.len() || i + pat.len() > s.len() {
        s.len() as int
    } else if matches_at(s, pat, i) {
        i
    } else {
        find_from(s, pat, i + 1)
    }
}

/// The least index where `pat` stands in `s`, or the length of `s`.
pub open spec fn find(s: Seq<char>, pat: Seq<char>) -> int {
    find_from(s, pat, 0)
}

/// The two parts of `s` around the first `c`.
pub open spec fn split_once_spec(s: Seq<char>, c: char) -> Option<(Seq<char>, Seq<char>)> {
    let p = position(s, c);
    if p < s.len() {
        Some((s.subrange(0, p), s.subrange(p + 1, s.len() as int)))
    } else {
        None
    }
}

/// The two parts of `s` around the first occurrence of a non-empty `pat`.
pub open spec fn split_once_at_spec(s: Seq<char>, pat: Seq<char>) -> Option<
    (Seq<char>, Seq<char>),
> {
    let p = find(s, pat);
    if p < s.len() {
        Some((s.subrange(0, p), s.subrange(p + pat.len(), s.len() as int)))
    } else {
        None
    }
}

/// `s` without a final line feed.
pub open spec fn strip_newline_spec(s: Seq<char>) -> Seq<char> {
    if s.len() > 0 && s.last() == '\n' {
        s.drop_last()
    } else {
        s
    }
}

/// Copies the characters of `s` from `from` up to `to`.
pub fn slice(s: &Vec<char>, from: usize, to: usize) -> (r: Vec<char>)
    requires
        from <= to <= s.len(),
    ensures
        r@ == s@.subrange(from as int, to as int),
{
    let mut r: Vec<char> = Vec::new();
    let mut i: usize = from;
    while i < to
        invariant
            from <= i <= to <= s.len(),
            r@ == s@.subrange(from as int, i as int),
        decreases to - i,
    {
        r.push(s[i]);
        i = i + 1;
        assert(r@ =~= s@.subrange(from as int, i as int));
    }
    r
}

/// Whether `pat` stands in `s` at index `i`.
pub fn has_at(s: &Vec<char>, pat: &Vec<char>, i: usize) -> (r: bool)
    ensures
        r == matches_at(s@, pat@, i as int),
{
    if pat.len() > s.len() || i > s.len() - pat.len() {
        return false;
    }
    let mut k: usize = 0;
    while k < pat.len()
        invariant
            k <= pat.len(),
            i + pat.len() <= s.len(),
            forall|j: int| 0 <= j < k ==> s@[i + j] == pat@[j],
        decreases pat.len() - k,
    {
        if s[i + k] != pat[k] {
            assert(s@.subrange(i as int, i + pat.len())[k as int] != pat@[k as int]);
            return false;
        }
        k = k + 1;
    }
    assert(s@.subrange(i as int, i + pat.len()) =~= pat@);
    true
}

/// Whether `s` begins with `pat`.
pub fn starts_with(s: &Vec<char>, pat: &Vec<char>) -> (r: bool)
    ensures
        r == matches_at(s@, pat@, 0),
{
    has_at(s, pat, 0)
}

/// Splits `s` around the first `c`, as `str::split_once` does.
pub fn split_once(s: &Vec<char>, c: char) -> (r: Option<(Vec<char>, Vec<char>)>)
    ensures
        r.is_some() == split_once_spec(s@, c).is_some(),
        r matches Some(p) ==> (p.0@, p.1@) == split_once_spec(s@, c).unwrap(),
{
    let mut i: usize = 0;
    while i < s.len() && s[i] != c
        invariant
            i <= s.len(),
            position(s@, c) == position_from(s@, c, i as int),
        decreases s.len() - i,
    {
        i = i + 1;
    }
    if i < s.len() {
        Some((slice(s, 0, i), slice(s, i + 1, s.len())))
    } else {
        None
    }
}

/// Splits `s` around the first occurrence of `pat`, as `str::split_once`
/// does.
pub fn split_once_at(s: &Vec<char>, pat: &Vec<char>) -> (r: Option<(Vec<char>, Vec<char>)>)
    requires
        pat.len() > 0,
    ensures
        r.is_some() == split_once_at_spec(s@, pat@).is_some(),
        r matches Some(p) ==> (p.0@, p.1@) == split_once_at_spec(s@, pat@).unwrap(),
{
    let mut i: usize = 0;
    while i < s.len() && !has_at(s, pat, i)
        invariant
            i <= s.len(),
            pat.len() > 0,
            find(s@, pat@) == find_from(s@, pat@, i as int),
        decreases s.len() - i,
    {
        i = i + 1;
    }
    if i < s.len() {
        Some((slice(s, 0, i), slice(s, i + pat.len(), s.len())))
    } else {
        None
    }
}

/// Drops a final line feed, if there is one.
pub fn strip_newline(s: &Vec<char>) -> (r: Vec<char>)
    ensures
        r@ == strip_newline_spec(s@),
{
    if s.len() > 0 && s[s.len() - 1] == '\n' {
        slice(s, 0, s.len() - 1)
    } else {
        let r = slice(s, 0, s.len());
        assert(s@.subrange(0, s.len() as int) =~= s@);
        r
    }
}

/// The greatest index below `i` where `c` stands in `s`, or -1.
pub open spec fn last_position_before(s: Seq<char>, c: char, i: int) -> int
    decreases i,
{
    if i <= 0 {
        -1
    } else if s[i - 1] == c {
        i - 1
    } else {
        last_position_before(s, c, i - 1)
    }
}

/// The two parts of `s` around the last `c`.
pub open spec fn rsplit_once_spec(s: Seq<char>, c: char) -> Option<(Seq<char>, Seq<char>)> {
    let p = last_position_before(s, c, s.len() as int);
    if p >= 0 {
        Some((s.subrange(0, p), s.subrange(p + 1, s.len() as int)))
    } else {
        None
    }
}

/// Splits `s` around the last `c`, as `str::rsplit_once` does.
pub fn rsplit_once(s: &Vec<char>, c: char) -> (r: Option<(Vec<char>, Vec<char>)>)
    ensures
        r.is_some() == rsplit_once_spec(s@, c).is_some(),
        r matches Some(p) ==> (p.0@, p.1@) == rsplit_once_spec(s@, c).unwrap(),
{
    let mut i: usize = s.len();
    while i > 0 && s[i - 1] != c
        invariant
            i <= s.len(),
            last_position_before(s@, c, s.len() as int) == last_position_before(s@, c, i as int),
        decreases i,
    {
        i = i - 1;
    }
    if i > 0 {
        Some((slice(s, 0, i - 1), slice(s, i, s.len())))
    } else {
        None
    }
}

/// The characters that `char::is_whitespace` accepts: those with the
/// Unicode property `White_Space`.
pub open spec fn is_unicode_white(c: char) -> bool {
    let n = c as u32;
    (0x09 <= n && n <= 0x0D) || n == 0x20 || n == 0x85 || n == 0xA0 || n == 0x1680 || (0x2000 <= n
        && n <= 0x200A) || n == 0x2028 || n == 0x2029 || n == 0x202F || n == 0x205F || n
        == 0x3000
}

/// Whether `c` is white space.
pub fn is_white(c: char) -> (r: bool)
    ensures
        r == is_unicode_white(c),
{
    let n: u32 = c as u32;
    (0x09 <= n && n <= 0x0D) || n == 0x20 || n == 0x85 || n == 0xA0 || n == 0x1680 || (0x2000 <= n
        && n <= 0x200A) || n == 0x2028 || n == 0x2029 || n == 0x202F || n == 0x205F || n
        == 0x3000
}

/// The length of `s` without the white space at its end, looking at the
/// first `n` characters.
pub open spec fn trimmed_len(s: Seq<char>, n: int) -> int
    decreases n,
{
    if n <= 0 {
        0
    } else if is_unicode_white(s[n - 1]) {
        trimmed_len(s, n - 1)
    } else {
        n
    }
}

/// `s` without the white space at its end.
pub open spec fn trim_end_spec(s: Seq<char>) -> Seq<char> {
    s.subrange(0, trimmed_len(s, s.len() as int))
}

pub proof fn lemma_trimmed_len(s: Seq<char>, n: int)
    requires
        0 <= n <= s.len(),
    ensures
        0 <= trimmed_len(s, n) <= n,
    decreases n,
{
    if n > 0 && is_unicode_white(s[n - 1]) {
        lemma_trimmed_len(s, n - 1);
    }
}

/// Drops the white space at the end, as `str::trim_end` does.
pub fn trim_end(s: &Vec<char>) -> (r: Vec<char>)
    ensures
        r@ == trim_end_spec(s@),
{
    let mut n: usize = s.len();
    while n > 0 && is_white(s[n - 1])
        invariant
            n <= s.len(),
            trimmed_len(s@, s.len() as int) == trimmed_len(s@, n as int),
        decreases n,
    {
        n = n - 1;
    }
    slice(s, 0, n)
}

/// The pieces of `s` between the characters `c`, from index `from` on,
/// when `piece` is what has been read of the current piece.
pub open spec fn split_from(s: Seq<char>, c: char, from: int, piece: Seq<char>) -> Seq<Seq<char>>
    decreases s.len() - from,
{
    if from < 0 || from >= s.len() {
        seq![piece]
    } else if s[from] == c {
        seq![piece] + split_from(s, c, from + 1, seq![])
    } else {
        split_from(s, c, from + 1, piece.push(s[from]))
    }
}

/// The pieces of `s` between the characters `c`, as `str::split` gives
/// them.
pub open spec fn split_spec(s: Seq<char>, c: char) -> Seq<Seq<char>> {
    split_from(s, c, 0, seq![])
}

/// Cuts `s` at every `c`, as `str::split` does.
pub fn split(s: &Vec<char>, c: char) -> (r: Vec<Vec<char>>)
    ensures
        views(r@) == split_spec(s@, c),
{
    let mut out: Vec<Vec<char>> = Vec::new();
    let mut piece: Vec<char> = Vec::new();
    let mut i: usize = 0;
    assert(views(out@) =~= seq![]);
    assert(piece@ =~= seq![]);
    while i < s.len()
        invariant
            i <= s.len(),
            split_spec(s@, c) == views(out@) + split_from(s@, c, i as int, piece@),
        decreases s.len() - i,
    {
        let ghost done = views(out@);
        if s[i] == c {
            let ghost p = piece@;
            out.push(piece);
            piece = Vec::new();
            assert(piece@ =~= seq![]);
            assert(views(out@) =~= done.push(p));
            assert(done + (seq![p] + split_from(s@, c, i + 1, seq![])) =~= done.push(p)
                + split_from(s@, c, i + 1, seq![]));
        } else {
            piece.push(s[i]);
        }
        i = i + 1;
    }
    let ghost done = views(out@);
    let ghost p = piece@;
    out.push(piece);
    assert(views(out@) =~= done.push(p));
    assert(done + seq![p] =~= done.push(p));
    out
}

/// The character that stands for the digit `d`.
pub open spec fn digit_char(d: int) -> char {
    if d == 0 {
        '0'
    } else if d == 1 {
        '1'
    } else if d == 2 {
        '2'
    } else if d == 3 {
        '3'
    } else if d == 4 {
        '4'
    } else if d == 5 {
        '5'
    } else if d == 6 {
        '6'
    } else if d == 7 {
        '7'
    } else if d == 8 {
        '8'
    } else {
        '9'
    }
}

/// The decimal digits of `n`, most significant first, without leading
/// zeros; zero is written `0`.
pub open spec fn decimal_spec(n: nat) -> Seq<char>
    decreases n,
{
    if n < 10 {
        seq![digit_char(n as int)]
    } else {
        decimal_spec(n / 10).push(digit_char((n % 10) as int))
    }
}

/// Writing a number and reading it again gives the number: what
/// `decimal_spec` writes is a run of digits whose value is `n`.
pub proof fn lemma_decimal_reads_back(n: nat)
    ensures
        decimal_spec(n).len() >= 1,
        all_digits(decimal_spec(n)),
        digits_value(decimal_spec(n)) == n,
        unsigned_value(decimal_spec(n)) == Some(n as int),
    decreases n,
{
    let s = decimal_spec(n);
    if n < 10 {
        assert(s.drop_last() =~= Seq::<char>::empty());
        assert(digits_value(s.drop_last()) == 0);
        assert(digit_value(digit_char(n as int)) == n);
    } else {
        lemma_decimal_reads_back(n / 10);
        assert(s.drop_last() =~= decimal_spec(n / 10));
        assert(digit_value(digit_char((n % 10) as int)) == n % 10);
        assert forall|i: int| 0 <= i < s.len() implies is_digit(#[trigger] s[i]) by {
            if i < s.len() - 1 {
                assert(s[i] == decimal_spec(n / 10)[i]);
            }
        }
    }
    assert(is_digit(s[0]));
}

/// Writes a number in decimal digits.
pub fn decimal(n: u64) -> (r: Vec<char>)
    ensures
        r@ == decimal_spec(n as nat),
    decreases n,
{
    let table: [char; 10] = ['0', '1', '2', '3', '4', '5', '6', '7', '8', '9'];
    if n < 10 {
        let mut out: Vec<char> = Vec::new();
        out.push(table[n as usize]);
        assert(out@ =~= seq![digit_char(n as int)]);
        out
    } else {
        let mut out = decimal(n / 10);
        out.push(table[(n % 10) as usize]);
        out
    }
}

} // verus!
