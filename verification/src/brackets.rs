use crate::order::{sort_usize, sorted_usize};
use vstd::prelude::*;

verus! {

/// The four kinds of bracket.
#[derive(Copy, Clone, PartialEq, Eq, Structural, Debug)]
pub enum PType {
    Paren,
    Square,
    Curly,
    Arrow,
}

/// Whether a bracket opens or closes.
#[derive(Copy, Clone, PartialEq, Eq, Structural, Debug)]
pub enum Action {
    Open,
    Close,
}

/// The bracket that a character is.
pub open spec fn token_of(c: char) -> Option<(PType, Action)> {
    if c == '(' {
        Some((PType::Paren, Action::Open))
    } else if c == '[' {
        Some((PType::Square, Action::Open))
    } else if c == '{' {
        Some((PType::Curly, Action::Open))
    } else if c == '<' {
        Some((PType::Arrow, Action::Open))
    } else if c == ')' {
        Some((PType::Paren, Action::Close))
    } else if c == ']' {
        Some((PType::Square, Action::Close))
    } else if c == '}' {
        Some((PType::Curly, Action::Close))
    } else if c == '>' {
        Some((PType::Arrow, Action::Close))
    } else {
        None
    }
}

/// The brackets of a line; other characters are passed over.
pub open spec fn tokens_of(s: Seq<char>) -> Seq<(PType, Action)>
    decreases s.len(),
{
    if s.len() == 0 {
        seq![]
    } else {
        match token_of(s.last()) {
            Some(t) => tokens_of(s.drop_last()).push(t),
            None => tokens_of(s.drop_last()),
        }
    }
}

fn read_token(c: char) -> (r: Option<(PType, Action)>)
    ensures
        r == token_of(c),
{
    if c == '(' {
        Some((PType::Paren, Action::Open))
    } else if c == '[' {
        Some((PType::Square, Action::Open))
    } else if c == '{' {
        Some((PType::Curly, Action::Open))
    } else if c == '<' {
        Some((PType::Arrow, Action::Open))
    } else if c == ')' {
        Some((PType::Paren, Action::Close))
    } else if c == ']' {
        Some((PType::Square, Action::Close))
    } else if c == '}' {
        Some((PType::Curly, Action::Close))
    } else if c == '>' {
        Some((PType::Arrow, Action::Close))
    } else {
        None
    }
}

fn read_line(s: &Vec<char>) -> (r: Vec<(PType, Action)>)
    ensures
        r@ == tokens_of(s@),
{
    let mut out: Vec<(PType, Action)> = Vec::new();
    let mut i: usize = 0;
    while i < s.len()
        invariant
            i <= s.len(),
            out@ == tokens_of(s@.subrange(0, i as int)),
        decreases s.len() - i,
    {
        proof {
            assert(s@.subrange(0, i + 1).drop_last() =~= s@.subrange(0, i as int));
            assert(s@.subrange(0, i + 1).last() == s@[i as int]);
        }
        match read_token(s[i]) {
            Some(t) => {
                out.push(t);
            },
            None => {},
        }
        i = i + 1;
    }
    assert(s@.subrange(0, i as int) =~= s@);
    out
}

/// Reads the brackets of every line.
pub fn read_data(lines: &Vec<Vec<char>>) -> (r: Vec<Vec<(PType, Action)>>)
    ensures
        r.len() == lines.len(),
        forall|i: int| 0 <= i < r.len() ==> (#[trigger] r[i])@ == tokens_of(lines[i]@),
{
    let mut out: Vec<Vec<(PType, Action)>> = Vec::new();
    let mut i: usize = 0;
    while i < lines.len()
        invariant
            i <= lines.len(),
            out.len() == i,
            forall|k: int| 0 <= k < i ==> (#[trigger] out[k])@ == tokens_of(lines[k]@),
        decreases lines.len() - i,
    {
        out.push(read_line(&lines[i]));
        i = i + 1;
    }
    out
}

/// What a line turns out to be: corrupted at a closing bracket of some
/// kind, or a line that leaves the given brackets open (the innermost
/// last).
pub enum Verdict {
    Corrupt(PType),
    Open(Seq<PType>),
}

/// The verdict on the brackets of `line` from the `i`-th on, when `stack`
/// holds the brackets that are open.
pub open spec fn judge(line: Seq<(PType, Action)>, i: int, stack: Seq<PType>) -> Verdict
    decreases line.len() - i,
{
    if i < 0 || i >= line.len() {
        Verdict::Open(stack)
    } else if line[i].1 == Action::Open {
        judge(line, i + 1, stack.push(line[i].0))
    } else if stack.len() > 0 && stack.last() == line[i].0 {
        judge(line, i + 1, stack.drop_last())
    } else {
        Verdict::Corrupt(line[i].0)
    }
}

/// The points for a line corrupted at a bracket of kind `t`.
pub open spec fn corrupt_points(t: PType) -> u32 {
    match t {
        PType::Paren => 3,
        PType::Square => 57,
        PType::Curly => 1197,
        PType::Arrow => 25137,
    }
}

pub open spec fn close_points(t: PType) -> int {
    match t {
        PType::Paren => 1,
        PType::Square => 2,
        PType::Curly => 3,
        PType::Arrow => 4,
    }
}

/// The points when `score` has been reached and `stack` is still open.
pub open spec fn completion_after(stack: Seq<PType>, score: int) -> int
    decreases stack.len(),
{
    if stack.len() == 0 {
        score
    } else {
        completion_after(stack.drop_last(), score * 5 + close_points(stack.last()))
    }
}

/// The points of a line: for a corrupted line those of the bracket that
/// breaks it, else the points for closing what it leaves open.
pub enum LineScore {
    Corrupt(u32),
    Completion(usize),
}

pub proof fn lemma_completion_grows(stack: Seq<PType>, score: int)
    requires
        score >= 0,
    ensures
        completion_after(stack, score) >= score,
    decreases stack.len(),
{
    if stack.len() > 0 {
        lemma_completion_grows(stack.drop_last(), score * 5 + close_points(stack.last()));
    }
}

/// Scores one line. `None` when the points for closing it leave the range
/// of `usize`.
pub fn score_line(line: &Vec<(PType, Action)>) -> (r: Option<LineScore>)
    ensures
        match judge(line@, 0, seq![]) {
            Verdict::Corrupt(t) => r matches Some(LineScore::Corrupt(p)) && p == corrupt_points(t),
            Verdict::Open(stack) => match r {
                Some(LineScore::Completion(p)) => p == completion_after(stack, 0),
                Some(LineScore::Corrupt(_)) => false,
                None => completion_after(stack, 0) > usize::MAX,
            },
        },
{
    let mut queue: Vec<PType> = Vec::new();
    let mut i: usize = 0;
    while i < line.len()
        invariant
            i <= line.len(),
            judge(line@, 0, seq![]) == judge(line@, i as int, queue@),
        decreases line.len() - i,
    {
        let ent = line[i];
        match ent.1 {
            Action::Open => {
                queue.push(ent.0);
            },
            Action::Close => {
                let ghost before = queue@;
                let top = queue.pop();
                if top != Some(ent.0) {
                    return Some(
                        LineScore::Corrupt(
                            match ent.0 {
                                PType::Paren => 3,
                                PType::Square => 57,
                                PType::Curly => 1197,
                                PType::Arrow => 25137,
                            },
                        ),
                    );
                }
                assert(queue@ =~= before.drop_last());
            },
        }
        i = i + 1;
    }
    let ghost stack = queue@;
    let mut score: usize = 0;
    while queue.len() > 0
        invariant
            judge(line@, 0, seq![]) == Verdict::Open(stack),
            completion_after(queue@, score as int) == completion_after(stack, 0),
        decreases queue.len(),
    {
        let ghost before = queue@;
        let c = match queue.pop() {
            Some(c) => c,
            None => PType::Paren,
        };
        assert(queue@ =~= before.drop_last());
        let add: usize = match c {
            PType::Paren => 1,
            PType::Square => 2,
            PType::Curly => 3,
            PType::Arrow => 4,
        };
        let next = match score.checked_mul(5) {
            Some(v) => v.checked_add(add),
            None => None,
        };
        match next {
            Some(v) => {
                score = v;
            },
            None => {
                proof {
                    lemma_completion_grows(queue@, score * 5 + close_points(c));
                }
                return None;
            },
        }
    }
    Some(LineScore::Completion(score))
}

/// The sum of the points of the corrupted lines among the first `n`.
pub open spec fn corrupt_total(data: Seq<Seq<(PType, Action)>>, n: int) -> int
    decreases n,
{
    if n <= 0 {
        0
    } else {
        corrupt_total(data, n - 1) + (match judge(data[n - 1], 0, seq![]) {
            Verdict::Corrupt(t) => corrupt_points(t) as int,
            Verdict::Open(_) => 0,
        })
    }
}

/// The points for closing each of the first `n` lines that is not
/// corrupted.
pub open spec fn completions(data: Seq<Seq<(PType, Action)>>, n: int) -> Seq<int>
    decreases n,
{
    if n <= 0 {
        seq![]
    } else {
        match judge(data[n - 1], 0, seq![]) {
            Verdict::Corrupt(_) => completions(data, n - 1),
            Verdict::Open(stack) => completions(data, n - 1).push(completion_after(stack, 0)),
        }
    }
}

/// The views of a list of lines.
pub open spec fn data_view(d: Seq<Vec<(PType, Action)>>) -> Seq<Seq<(PType, Action)>> {
    d.map_values(|l: Vec<(PType, Action)>| l@)
}

/// Whether the first `n` lines can be scored: the points for closing
/// each line that is not corrupted stay in the range of `usize`, the sum
/// of the points of the corrupted ones stays in the range of `u32`, and
/// some line is left to close.
pub open spec fn scorable(data: Seq<Seq<(PType, Action)>>, n: int) -> bool {
    &&& corrupt_total(data, n) <= u32::MAX
    &&& completions(data, n).len() > 0
    &&& forall|i: int|
        0 <= i < n ==> (judge(#[trigger] data[i], 0, seq![]) matches Verdict::Open(stack)
            ==> completion_after(stack, 0) <= usize::MAX)
}

pub proof fn lemma_corrupt_total_rises(data: Seq<Seq<(PType, Action)>>, k: int, n: int)
    requires
        k <= n,
    ensures
        0 <= corrupt_total(data, k) <= corrupt_total(data, n),
    decreases n - k,
{
    if k < n {
        lemma_corrupt_total_rises(data, k, n - 1);
    } else {
        lemma_corrupt_total_nonneg(data, k);
    }
}

pub proof fn lemma_corrupt_total_nonneg(data: Seq<Seq<(PType, Action)>>, k: int)
    ensures
        0 <= corrupt_total(data, k),
    decreases k,
{
    if k > 0 {
        lemma_corrupt_total_nonneg(data, k - 1);
    }
}

/// Scores all lines: the sum of the points of the corrupted ones, and the
/// middle one of the points for closing the others. `None` when some
/// number leaves its range, or when no line is left to close.
pub fn solve(data: &Vec<Vec<(PType, Action)>>) -> (r: Option<(u32, usize)>)
    ensures
        r is Some <==> scorable(data_view(data@), data.len() as int),
        r matches Some(v) ==> {
            let all = completions(data_view(data@), data.len() as int);
            &&& v.0 == corrupt_total(data_view(data@), data.len() as int)
            &&& exists|sorted: Seq<usize>|
                sorted_usize(sorted) && sorted.len() == all.len() && sorted.len() > 0
                    && sorted.to_multiset() =~= all.map_values(|p: int| p as usize).to_multiset()
                    && v.1 == #[trigger] sorted[(sorted.len() / 2) as int]
        },
{
    let mut res_1: u32 = 0;
    let mut line_scores: Vec<usize> = Vec::new();
    let ghost view = data_view(data@);
    let mut i: usize = 0;
    while i < data.len()
        invariant
            i <= data.len(),
            view == data_view(data@),
            res_1 == corrupt_total(view, i as int),
            line_scores@ == completions(view, i as int).map_values(|p: int| p as usize),
            line_scores.len() == completions(view, i as int).len(),
            forall|k: int|
                0 <= k < i ==> (judge(#[trigger] view[k], 0, seq![]) matches Verdict::Open(stack)
                    ==> completion_after(stack, 0) <= usize::MAX),
        decreases data.len() - i,
    {
        assert(view[i as int] == data@[i as int]@);
        match score_line(&data[i]) {
            Some(LineScore::Corrupt(p)) => {
                res_1 = match res_1.checked_add(p) {
                    Some(v) => v,
                    None => {
                        proof {
                            lemma_corrupt_total_rises(view, i + 1, data.len() as int);
                        }
                        return None;
                    },
                };
            },
            Some(LineScore::Completion(p)) => {
                let ghost before = completions(view, i as int);
                line_scores.push(p);
                assert(line_scores@ =~= before.push(p as int).map_values(|p: int| p as usize));
            },
            None => {
                return None;
            },
        }
        i = i + 1;
    }
    if line_scores.len() == 0 {
        return None;
    }
    sort_usize(&mut line_scores);
    let mid = line_scores[line_scores.len() / 2];
    Some((res_1, mid))
}

} // verus!
