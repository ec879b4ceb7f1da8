use crate::text;
use crate::walks::{lemma_count, on_its_way, walks};
use vstd::prelude::*;

verus! {

/// What a walk through the caves may still do about small caves: it may
/// still enter one of them a second time, it has left one that it has to
/// come back to, or it may enter none twice.
#[derive(Copy, Clone, Debug)]
pub enum VisitState {
    CanTwice,
    Needs(usize),
    NoTwice,
}

/// The caves that a passage leads to from cave `n`, in the order of the
/// passages.
pub open spec fn reach(paths: Seq<(usize, usize)>, n: usize) -> Seq<usize>
    decreases paths.len(),
{
    if paths.len() == 0 {
        seq![]
    } else if paths.last().0 == n {
        reach(paths.drop_last(), n).push(paths.last().1)
    } else {
        reach(paths.drop_last(), n)
    }
}

/// The passages that do not touch cave `n`.
pub open spec fn without_spec(paths: Seq<(usize, usize)>, n: usize) -> Seq<(usize, usize)>
    decreases paths.len(),
{
    if paths.len() == 0 {
        seq![]
    } else if paths.last().0 != n && paths.last().1 != n {
        without_spec(paths.drop_last(), n).push(paths.last())
    } else {
        without_spec(paths.drop_last(), n)
    }
}

/// The ways in which a walk may go on after leaving cave `from`: for each
/// the new state and the passages that are left to it.
///
/// A big cave changes nothing. A small cave is closed behind the walk;
/// but a walk that may still enter a small cave twice may also leave it
/// open, and then has to come back to it.
pub open spec fn next_spec(
    state: VisitState,
    from: usize,
    is_start: bool,
    paths: Seq<(usize, usize)>,
    can_multi: bool,
) -> Seq<(VisitState, Seq<(usize, usize)>)> {
    if can_multi {
        seq![(state, paths)]
    } else if is_start {
        seq![(state, without_spec(paths, from))]
    } else {
        match state {
            VisitState::CanTwice => seq![
                (VisitState::CanTwice, without_spec(paths, from)),
                (VisitState::Needs(from), paths),
            ],
            VisitState::Needs(n) => seq![
                (
                    if n == from {
                        VisitState::NoTwice
                    } else {
                        VisitState::Needs(n)
                    },
                    without_spec(paths, from),
                ),
            ],
            VisitState::NoTwice => seq![(VisitState::NoTwice, without_spec(paths, from))],
        }
    }
}

fn copy_paths(paths: &Vec<(usize, usize)>) -> (r: Vec<(usize, usize)>)
    ensures
        r@ == paths@,
{
    let mut out: Vec<(usize, usize)> = Vec::new();
    let mut i: usize = 0;
    while i < paths.len()
        invariant
            i <= paths.len(),
            out@ == paths@.subrange(0, i as int),
        decreases paths.len() - i,
    {
        out.push(paths[i]);
        i = i + 1;
        assert(out@ =~= paths@.subrange(0, i as int));
    }
    assert(paths@.subrange(0, i as int) =~= paths@);
    out
}

/// The views of a list of states and passages.
pub open spec fn next_view(v: Seq<(VisitState, Vec<(usize, usize)>)>) -> Seq<
    (VisitState, Seq<(usize, usize)>),
> {
    v.map_values(|e: (VisitState, Vec<(usize, usize)>)| (e.0, e.1@))
}

impl VisitState {
    /// Whether the walk has to come back to a cave.
    pub fn is_needy(&self) -> (r: bool)
        ensures
            r == (self is Needs),
    {
        if let VisitState::Needs(_) = self {
            true
        } else {
            false
        }
    }

    /// The ways in which a walk may go on after leaving cave `from`.
    pub fn next_states(
        &self,
        from: usize,
        is_start: bool,
        paths: &Vec<(usize, usize)>,
        can_multi: bool,
    ) -> (r: Vec<(VisitState, Vec<(usize, usize)>)>)
        ensures
            next_view(r@) == next_spec(*self, from, is_start, paths@, can_multi),
    {
        let mut out: Vec<(VisitState, Vec<(usize, usize)>)> = Vec::new();
        if can_multi {
            out.push((*self, copy_paths(paths)));
        } else if is_start {
            out.push((*self, without(paths, from)));
        } else {
            match self {
                VisitState::CanTwice => {
                    out.push((VisitState::CanTwice, without(paths, from)));
                    out.push((VisitState::Needs(from), copy_paths(paths)));
                },
                VisitState::Needs(n) => {
                    out.push(
                        (
                            if *n == from {
                                VisitState::NoTwice
                            } else {
                                VisitState::Needs(*n)
                            },
                            without(paths, from),
                        ),
                    );
                },
                VisitState::NoTwice => {
                    out.push((VisitState::NoTwice, without(paths, from)));
                },
            }
        }
        assert(next_view(out@) =~= next_spec(*self, from, is_start, paths@, can_multi));
        out
    }
}

/// The caves that a passage leads to from cave `n`.
pub fn reachable_from(paths: &Vec<(usize, usize)>, n: usize) -> (r: Vec<usize>)
    ensures
        r@ == reach(paths@, n),
{
    let mut out: Vec<usize> = Vec::new();
    let mut i: usize = 0;
    while i < paths.len()
        invariant
            i <= paths.len(),
            out@ == reach(paths@.subrange(0, i as int), n),
        decreases paths.len() - i,
    {
        proof {
            assert(paths@.subrange(0, i + 1).drop_last() =~= paths@.subrange(0, i as int));
            assert(paths@.subrange(0, i + 1).last() == paths@[i as int]);
        }
        if paths[i].0 == n {
            out.push(paths[i].1);
        }
        i = i + 1;
    }
    assert(paths@.subrange(0, i as int) =~= paths@);
    out
}

/// The passages that do not touch cave `n`.
pub fn without(paths: &Vec<(usize, usize)>, n: usize) -> (r: Vec<(usize, usize)>)
    ensures
        r@ == without_spec(paths@, n),
{
    let mut out: Vec<(usize, usize)> = Vec::new();
    let mut i: usize = 0;
    while i < paths.len()
        invariant
            i <= paths.len(),
            out@ == without_spec(paths@.subrange(0, i as int), n),
        decreases paths.len() - i,
    {
        proof {
            assert(paths@.subrange(0, i + 1).drop_last() =~= paths@.subrange(0, i as int));
            assert(paths@.subrange(0, i + 1).last() == paths@[i as int]);
        }
        if (paths[i].0 != n) && (paths[i].1 != n) {
            out.push(paths[i]);
        }
        i = i + 1;
    }
    assert(paths@.subrange(0, i as int) =~= paths@);
    out
}

/// Whether every passage joins two known caves, not both of them big.
pub open spec fn edges_ok(paths: Seq<(usize, usize)>, can_multi: Seq<bool>) -> bool {
    forall|i: int|
        0 <= i < paths.len() ==> {
            let e = #[trigger] paths[i];
            e.0 < can_multi.len() && e.1 < can_multi.len() && !(can_multi[e.0 as int]
                && can_multi[e.1 as int])
        }
}

/// A bound on the length of the walks that are left: every passage may
/// still close, the right to a second visit may still be used, and a big
/// cave is left at once.
pub open spec fn weight(paths: Seq<(usize, usize)>, state: VisitState, big: bool) -> int {
    2 * paths.len() + (if state is CanTwice {
        2int
    } else {
        0int
    }) + (if big {
        1int
    } else {
        0int
    })
}

pub proof fn lemma_without(paths: Seq<(usize, usize)>, n: usize)
    ensures
        without_spec(paths, n).len() <= paths.len(),
        forall|i: int|
            0 <= i < without_spec(paths, n).len() ==> paths.contains(
                #[trigger] without_spec(paths, n)[i],
            ),
        (exists|i: int| 0 <= i < paths.len() && (paths[i].0 == n || paths[i].1 == n))
            ==> without_spec(paths, n).len() < paths.len(),
    decreases paths.len(),
{
    if paths.len() > 0 {
        let head = paths.drop_last();
        lemma_without(head, n);
        let w = without_spec(paths, n);
        assert forall|i: int| 0 <= i < w.len() implies paths.contains(#[trigger] w[i]) by {
            if i < without_spec(head, n).len() {
                let e = without_spec(head, n)[i];
                assert(head.contains(e));
                let j = choose|j: int| 0 <= j < head.len() && head[j] == e;
                assert(paths[j] == e);
            } else {
                assert(paths[paths.len() - 1] == w[i]);
            }
        }
        if exists|i: int| 0 <= i < paths.len() && (paths[i].0 == n || paths[i].1 == n) {
            let i = choose|i: int| 0 <= i < paths.len() && (paths[i].0 == n || paths[i].1 == n);
            if i < head.len() {
                assert(head[i] == paths[i]);
            }
        }
    }
}

pub proof fn lemma_without_ok(paths: Seq<(usize, usize)>, n: usize, can_multi: Seq<bool>)
    requires
        edges_ok(paths, can_multi),
    ensures
        edges_ok(without_spec(paths, n), can_multi),
{
    lemma_without(paths, n);
    let w = without_spec(paths, n);
    assert forall|i: int| 0 <= i < w.len() implies {
        let e = #[trigger] w[i];
        e.0 < can_multi.len() && e.1 < can_multi.len() && !(can_multi[e.0 as int]
            && can_multi[e.1 as int])
    } by {
        assert(paths.contains(w[i]));
        let j = choose|j: int| 0 <= j < paths.len() && paths[j] == w[i];
        assert(paths[j] == w[i]);
    }
}

pub proof fn lemma_reach(paths: Seq<(usize, usize)>, n: usize)
    ensures
        forall|i: int|
            0 <= i < reach(paths, n).len() ==> paths.contains((n, #[trigger] reach(paths, n)[i])),
    decreases paths.len(),
{
    if paths.len() > 0 {
        let head = paths.drop_last();
        lemma_reach(head, n);
        let r = reach(paths, n);
        assert forall|i: int| 0 <= i < r.len() implies paths.contains((n, #[trigger] r[i])) by {
            if i < reach(head, n).len() {
                assert(head.contains((n, reach(head, n)[i])));
                let j = choose|j: int| 0 <= j < head.len() && head[j] == (n, reach(head, n)[i]);
                assert(paths[j] == (n, r[i]));
            } else {
                assert(paths[paths.len() - 1] == (n, r[i]));
            }
        }
    }
}

/// Every way of going on from `start` to a cave `to` that a passage leads
/// to weighs less than the walk so far.
pub proof fn lemma_step(
    start: usize,
    to: usize,
    paths: Seq<(usize, usize)>,
    can_multi: Seq<bool>,
    state: VisitState,
    is_start: bool,
    j: int,
)
    requires
        edges_ok(paths, can_multi),
        start < can_multi.len(),
        paths.contains((start, to)),
        0 <= j < next_spec(state, start, is_start, paths, can_multi[start as int]).len(),
    ensures
        ({
            let next = next_spec(state, start, is_start, paths, can_multi[start as int])[j];
            &&& to < can_multi.len()
            &&& edges_ok(next.1, can_multi)
            &&& 0 <= weight(next.1, next.0, can_multi[to as int]) < weight(
                paths,
                state,
                can_multi[start as int],
            )
        }),
{
    let i = choose|i: int| 0 <= i < paths.len() && paths[i] == (start, to);
    assert(paths[i].0 == start && paths[i].1 == to);
    lemma_without(paths, start);
    lemma_without_ok(paths, start, can_multi);
}

/// The number of walks from `start` to `end` that the passages allow.
pub open spec fn count_spec(
    start: usize,
    end: usize,
    paths: Seq<(usize, usize)>,
    can_multi: Seq<bool>,
    state: VisitState,
    is_start: bool,
) -> nat
    decreases weight(paths, state, can_multi[start as int]), 2int, 0int,
{
    if start == end {
        if state is Needs {
            0
        } else {
            1
        }
    } else if !edges_ok(paths, can_multi) || start >= can_multi.len() {
        0
    } else {
        count_targets(start, end, paths, can_multi, state, is_start, reach(paths, start), 0)
    }
}

/// The number of walks that go on from `start` to one of `targets`, from
/// the `i`-th on.
pub open spec fn count_targets(
    start: usize,
    end: usize,
    paths: Seq<(usize, usize)>,
    can_multi: Seq<bool>,
    state: VisitState,
    is_start: bool,
    targets: Seq<usize>,
    i: int,
) -> nat
    decreases weight(paths, state, can_multi[start as int]), 1int, targets.len() - i,
{
    if i < 0 || i >= targets.len() {
        0
    } else {
        count_next(start, end, paths, can_multi, state, is_start, targets[i], 0) + count_targets(
            start,
            end,
            paths,
            can_multi,
            state,
            is_start,
            targets,
            i + 1,
        )
    }
}

/// The number of walks that go on from `start` to `to` in one of the ways
/// that the state allows, from the `j`-th on.
pub open spec fn count_next(
    start: usize,
    end: usize,
    paths: Seq<(usize, usize)>,
    can_multi: Seq<bool>,
    state: VisitState,
    is_start: bool,
    to: usize,
    j: int,
) -> nat
    decreases weight(paths, state, can_multi[start as int]), 0int, 2 - j,
{
    let nexts = next_spec(state, start, is_start, paths, can_multi[start as int]);
    if j < 0 || j >= nexts.len() || !edges_ok(paths, can_multi) || start >= can_multi.len()
        || !paths.contains((start, to)) {
        0
    } else {
        proof {
            lemma_step(start, to, paths, can_multi, state, is_start, j);
        }
        count_spec(to, end, nexts[j].1, can_multi, nexts[j].0, false) + count_next(
            start,
            end,
            paths,
            can_multi,
            state,
            is_start,
            to,
            j + 1,
        )
    }
}

/// Counts the walks from `start` to `end`: the lists of caves that lead
/// from the one to the other along the passages, stop where they first
/// come to `end`, and keep the rule on small caves that `state` names.
/// Where a passage is listed twice, the walks along it count twice.
pub fn find_path_cnt(
    start: usize,
    end: usize,
    paths: &Vec<(usize, usize)>,
    can_multi: &Vec<bool>,
    state: VisitState,
    is_start: bool,
) -> (r: usize)
    requires
        start == end || (edges_ok(paths@, can_multi@) && start < can_multi.len()),
        count_spec(start, end, paths@, can_multi@, state, is_start) <= usize::MAX,
    ensures
        r == count_spec(start, end, paths@, can_multi@, state, is_start),
        paths@.no_duplicates() && on_its_way(state, can_multi@, end, is_start) ==> r == walks(
            start,
            end,
            paths@,
            can_multi@,
            state,
            is_start,
        ).len(),
    decreases weight(paths@, state, can_multi@[start as int]),
{
    proof {
        if paths@.no_duplicates() && on_its_way(state, can_multi@, end, is_start) {
            lemma_count(start, end, paths@, can_multi@, state, is_start);
        }
    }
    if start == end {
        return if state.is_needy() {
            0
        } else {
            1
        };
    }
    let ghost total = count_spec(start, end, paths@, can_multi@, state, is_start);
    let mut sum: usize = 0;
    let targets = reachable_from(paths, start);
    proof {
        lemma_reach(paths@, start);
    }
    let mut i: usize = 0;
    while i < targets.len()
        invariant
            i <= targets.len(),
            start != end,
            edges_ok(paths@, can_multi@),
            start < can_multi.len(),
            targets@ == reach(paths@, start),
            forall|k: int| 0 <= k < targets.len() ==> paths@.contains((start, #[trigger] targets@[k])),
            total <= usize::MAX,
            sum + count_targets(
                start,
                end,
                paths@,
                can_multi@,
                state,
                is_start,
                targets@,
                i as int,
            ) == total,
        decreases targets.len() - i,
    {
        let to = targets[i];
        assert(paths@.contains((start, targets@[i as int])));
        let nexts = state.next_states(start, is_start, paths, can_multi[start]);
        let ghost after = count_targets(
            start,
            end,
            paths@,
            can_multi@,
            state,
            is_start,
            targets@,
            i + 1,
        );
        assert(next_view(nexts@).len() == nexts@.len());
        let mut j: usize = 0;
        while j < nexts.len()
            invariant
                j <= nexts.len(),
                start != end,
                edges_ok(paths@, can_multi@),
                start < can_multi.len(),
                paths@.contains((start, to)),
                next_view(nexts@) == next_spec(
                    state,
                    start,
                    is_start,
                    paths@,
                    can_multi@[start as int],
                ),
                nexts.len() <= 2,
                total <= usize::MAX,
                sum + count_next(start, end, paths@, can_multi@, state, is_start, to, j as int)
                    + after == total,
            decreases nexts.len() - j,
        {
            proof {
                lemma_step(start, to, paths@, can_multi@, state, is_start, j as int);
                assert(next_view(nexts@)[j as int] == (nexts@[j as int].0, nexts@[j as int].1@));
            }
            let c = find_path_cnt(to, end, &nexts[j].1, can_multi, nexts[j].0, false);
            sum = sum + c;
            j = j + 1;
        }
        i = i + 1;
    }
    sum
}

/// Counts the walks from `start` to `end` as `find_path_cnt` does. `None`
/// when there are more of them than `usize` holds.
pub fn try_find_path_cnt(
    start: usize,
    end: usize,
    paths: &Vec<(usize, usize)>,
    can_multi: &Vec<bool>,
    state: VisitState,
    is_start: bool,
) -> (r: Option<usize>)
    requires
        start == end || (edges_ok(paths@, can_multi@) && start < can_multi.len()),
    ensures
        r is Some <==> count_spec(start, end, paths@, can_multi@, state, is_start) <= usize::MAX,
        r matches Some(v) ==> v == count_spec(start, end, paths@, can_multi@, state, is_start),
        paths@.no_duplicates() && on_its_way(state, can_multi@, end, is_start) ==> count_spec(
            start,
            end,
            paths@,
            can_multi@,
            state,
            is_start,
        ) == walks(start, end, paths@, can_multi@, state, is_start).len(),
    decreases weight(paths@, state, can_multi@[start as int]),
{
    proof {
        if paths@.no_duplicates() && on_its_way(state, can_multi@, end, is_start) {
            lemma_count(start, end, paths@, can_multi@, state, is_start);
        }
    }
    if start == end {
        return Some(
            if state.is_needy() {
                0
            } else {
                1
            },
        );
    }
    let ghost total = count_spec(start, end, paths@, can_multi@, state, is_start);
    let mut sum: usize = 0;
    let targets = reachable_from(paths, start);
    proof {
        lemma_reach(paths@, start);
    }
    let mut i: usize = 0;
    while i < targets.len()
        invariant
            i <= targets.len(),
            start != end,
            edges_ok(paths@, can_multi@),
            start < can_multi.len(),
            targets@ == reach(paths@, start),
            forall|k: int| 0 <= k < targets.len() ==> paths@.contains((start, #[trigger] targets@[k])),
            total == count_spec(start, end, paths@, can_multi@, state, is_start),
            paths@.no_duplicates() && on_its_way(state, can_multi@, end, is_start) ==> total
                == walks(start, end, paths@, can_multi@, state, is_start).len(),
            sum + count_targets(
                start,
                end,
                paths@,
                can_multi@,
                state,
                is_start,
                targets@,
                i as int,
            ) == total,
        decreases targets.len() - i,
    {
        let to = targets[i];
        assert(paths@.contains((start, targets@[i as int])));
        let nexts = state.next_states(start, is_start, paths, can_multi[start]);
        let ghost after = count_targets(
            start,
            end,
            paths@,
            can_multi@,
            state,
            is_start,
            targets@,
            i + 1,
        );
        assert(next_view(nexts@).len() == nexts@.len());
        let mut j: usize = 0;
        while j < nexts.len()
            invariant
                j <= nexts.len(),
                start != end,
                edges_ok(paths@, can_multi@),
                start < can_multi.len(),
                paths@.contains((start, to)),
                next_view(nexts@) == next_spec(
                    state,
                    start,
                    is_start,
                    paths@,
                    can_multi@[start as int],
                ),
                nexts.len() <= 2,
                total == count_spec(start, end, paths@, can_multi@, state, is_start),
            paths@.no_duplicates() && on_its_way(state, can_multi@, end, is_start) ==> total
                == walks(start, end, paths@, can_multi@, state, is_start).len(),
                sum + count_next(start, end, paths@, can_multi@, state, is_start, to, j as int)
                    + after == total,
            decreases nexts.len() - j,
        {
            proof {
                lemma_step(start, to, paths@, can_multi@, state, is_start, j as int);
                assert(next_view(nexts@)[j as int] == (nexts@[j as int].0, nexts@[j as int].1@));
            }
            let c = match try_find_path_cnt(to, end, &nexts[j].1, can_multi, nexts[j].0, false) {
                Some(c) => c,
                None => {
                    return None;
                },
            };
            sum = match sum.checked_add(c) {
                Some(t) => t,
                None => {
                    return None;
                },
            };
            j = j + 1;
        }
        i = i + 1;
    }
    Some(sum)
}

/// What `char::is_uppercase` gives: whether the character has the
/// Unicode property `Uppercase`.
pub uninterp spec fn is_upper(c: char) -> bool;

/// `char::is_uppercase`.
pub assume_specification[ char::is_uppercase ](c: char) -> (r: bool)
    ensures
        r == is_upper(c),
;

/// The first index from `i` on where the name stands in the list, or the
/// length of the list.
pub open spec fn find_name(names: Seq<Seq<char>>, name: Seq<char>, i: int) -> int
    decreases names.len() - i,
{
    if i < 0 || i >= names.len() {
        names.len() as int
    } else if names[i] == name {
        i
    } else {
        find_name(names, name, i + 1)
    }
}

/// The names of the caves in the order in which the first `k` lines name
/// them; `None` when a line has no `-` or names a cave without a name.
pub open spec fn names_after(lines: Seq<Seq<char>>, k: int) -> Option<Seq<Seq<char>>>
    decreases k,
{
    if k <= 0 {
        Some(seq![])
    } else {
        match (names_after(lines, k - 1), text::split_once_spec(lines[k - 1], '-')) {
            (Some(names), Some((a, b0))) => {
                let b = text::strip_newline_spec(b0);
                if a.len() == 0 || b.len() == 0 {
                    None
                } else {
                    let with_a = if find_name(names, a, 0) < names.len() {
                        names
                    } else {
                        names.push(a)
                    };
                    Some(
                        if find_name(with_a, b, 0) < with_a.len() {
                            with_a
                        } else {
                            with_a.push(b)
                        },
                    )
                }
            },
            _ => None,
        }
    }
}

/// The passages that the first `k` lines give, each in both directions,
/// the caves numbered in the order of their first naming.
pub open spec fn passages_after(lines: Seq<Seq<char>>, k: int) -> Seq<(usize, usize)>
    decreases k,
{
    if k <= 0 {
        seq![]
    } else {
        match (names_after(lines, k), text::split_once_spec(lines[k - 1], '-')) {
            (Some(names), Some((a, b0))) => {
                let b = text::strip_newline_spec(b0);
                let a_id = find_name(names, a, 0) as usize;
                let b_id = find_name(names, b, 0) as usize;
                passages_after(lines, k - 1).push((a_id, b_id)).push((b_id, a_id))
            },
            _ => passages_after(lines, k - 1),
        }
    }
}

fn same_text(a: &Vec<char>, b: &Vec<char>) -> (r: bool)
    ensures
        r == (a@ == b@),
{
    if a.len() != b.len() {
        return false;
    }
    let mut i: usize = 0;
    while i < a.len()
        invariant
            i <= a.len(),
            a.len() == b.len(),
            forall|k: int| 0 <= k < i ==> a@[k] == b@[k],
        decreases a.len() - i,
    {
        if a[i] != b[i] {
            return false;
        }
        i = i + 1;
    }
    assert(a@ =~= b@);
    true
}

fn intern(names: &mut Vec<Vec<char>>, can_multi: &mut Vec<bool>, name: Vec<char>) -> (id: usize)
    requires
        name.len() > 0,
        old(names).len() == old(can_multi).len(),
        forall|k: int| 0 <= k < old(names).len() ==> (#[trigger] old(names)[k]).len() > 0,
        forall|k: int|
            0 <= k < old(names).len() ==> #[trigger] old(can_multi)[k] == is_upper(old(names)[k][0]),
    ensures
        id == find_name(text::views(old(names)@), name@, 0),
        id < final(names).len(),
        text::views(final(names)@) == (if find_name(text::views(old(names)@), name@, 0) < old(
            names,
        ).len() {
            text::views(old(names)@)
        } else {
            text::views(old(names)@).push(name@)
        }),
        final(names).len() == final(can_multi).len(),
        forall|k: int| 0 <= k < final(names).len() ==> (#[trigger] final(names)[k]).len() > 0,
        forall|k: int|
            0 <= k < final(names).len() ==> #[trigger] final(can_multi)[k] == is_upper(
                final(names)[k][0],
            ),
{
    let ghost view = text::views(names@);
    let mut i: usize = 0;
    while i < names.len()
        invariant
            i <= names.len(),
            *names == *old(names),
            *can_multi == *old(can_multi),
            names.len() == can_multi.len(),
            forall|k: int| 0 <= k < names.len() ==> (#[trigger] names[k]).len() > 0,
            forall|k: int| 0 <= k < names.len() ==> #[trigger] can_multi[k] == is_upper(names[k][0]),
            view == text::views(names@),
            find_name(view, name@, 0) == find_name(view, name@, i as int),
        decreases names.len() - i,
    {
        assert(view[i as int] == names@[i as int]@);
        if same_text(&names[i], &name) {
            return i;
        }
        i = i + 1;
    }
    can_multi.push(name[0].is_uppercase());
    let ghost shown = name@;
    names.push(name);
    assert(text::views(names@) =~= view.push(shown));
    i
}

/// Reads the map of the caves: the numbers of the caves `start` and
/// `end`, the passages, and which caves are big. A cave is big if its
/// name begins with an upper-case letter.
pub fn read_data(lines: &Vec<Vec<char>>) -> (r: Option<(usize, usize, Vec<(usize, usize)>, Vec<bool>)>)
    ensures
        r matches Some(v) ==> {
            let all = text::views(lines@);
            &&& names_after(all, lines.len() as int) matches Some(names)
            &&& v.0 == find_name(names, seq!['s', 't', 'a', 'r', 't'], 0)
            &&& v.0 < names.len()
            &&& v.1 == find_name(names, seq!['e', 'n', 'd'], 0)
            &&& v.1 < names.len()
            &&& v.2@ == passages_after(all, lines.len() as int)
            &&& v.3.len() == names.len()
            &&& forall|k: int| 0 <= k < names.len() ==> #[trigger] v.3[k] == is_upper(names[k][0])
        },
        r is None ==> {
            let all = text::views(lines@);
            match names_after(all, lines.len() as int) {
                Some(names) => find_name(names, seq!['s', 't', 'a', 'r', 't'], 0) >= names.len()
                    || find_name(names, seq!['e', 'n', 'd'], 0) >= names.len(),
                None => true,
            }
        },
{
    let ghost all = text::views(lines@);
    let mut ret: Vec<(usize, usize)> = Vec::new();
    let mut can_multi: Vec<bool> = Vec::new();
    let mut names: Vec<Vec<char>> = Vec::new();
    let mut i: usize = 0;
    assert(text::views(names@) =~= seq![]);
    while i < lines.len()
        invariant
            i <= lines.len(),
            all == text::views(lines@),
            names_after(all, i as int) == Some(text::views(names@)),
            ret@ == passages_after(all, i as int),
            names.len() == can_multi.len(),
            forall|k: int| 0 <= k < names.len() ==> (#[trigger] names[k]).len() > 0,
            forall|k: int| 0 <= k < names.len() ==> #[trigger] can_multi[k] == is_upper(names[k][0]),
        decreases lines.len() - i,
    {
        assert(all[i as int] == lines@[i as int]@);
        let (a, b0) = match text::split_once(&lines[i], '-') {
            Some(v) => v,
            None => {
                proof {
                    lemma_names_fail(all, i + 1, lines.len() as int);
                }
                return None;
            },
        };
        let b = text::strip_newline(&b0);
        if a.len() == 0 || b.len() == 0 {
            proof {
                lemma_names_fail(all, i + 1, lines.len() as int);
            }
            return None;
        }
        let ghost a_view = a@;
        let ghost b_view = b@;
        let ghost first = text::views(names@);
        let a_id = intern(&mut names, &mut can_multi, a);
        let ghost mid = text::views(names@);
        let b_id = intern(&mut names, &mut can_multi, b);
        proof {
            lemma_find_kept(first, mid, a_view, 0);
            lemma_find_kept(mid, text::views(names@), a_view, 0);
            lemma_find_kept(mid, text::views(names@), b_view, 0);
        }
        ret.push((a_id, b_id));
        ret.push((b_id, a_id));
        i = i + 1;
    }
    let start_name: Vec<char> = vec!['s', 't', 'a', 'r', 't'];
    let end_name: Vec<char> = vec!['e', 'n', 'd'];
    assert(start_name@ =~= seq!['s', 't', 'a', 'r', 't']);
    assert(end_name@ =~= seq!['e', 'n', 'd']);
    let start = lookup(&names, &start_name);
    let end = lookup(&names, &end_name);
    if start >= names.len() || end >= names.len() {
        return None;
    }
    proof {
        assert forall|k: int| 0 <= k < names.len() implies #[trigger] can_multi[k] == is_upper(
            text::views(names@)[k][0],
        ) by {
            assert(text::views(names@)[k] == names[k]@);
        }
    }
    Some((start, end, ret, can_multi))
}

fn lookup(names: &Vec<Vec<char>>, name: &Vec<char>) -> (id: usize)
    ensures
        id == find_name(text::views(names@), name@, 0),
        id <= names.len(),
{
    let ghost view = text::views(names@);
    let mut i: usize = 0;
    while i < names.len()
        invariant
            i <= names.len(),
            view == text::views(names@),
            find_name(view, name@, 0) == find_name(view, name@, i as int),
        decreases names.len() - i,
    {
        assert(view[i as int] == names@[i as int]@);
        if same_text(&names[i], name) {
            return i;
        }
        i = i + 1;
    }
    i
}

pub proof fn lemma_names_fail(lines: Seq<Seq<char>>, n: int, m: int)
    requires
        0 <= n <= m,
        names_after(lines, n) is None,
    ensures
        names_after(lines, m) is None,
    decreases m - n,
{
    if n < m {
        lemma_names_fail(lines, n, m - 1);
    }
}

/// A name that is found in a list is found at the same place in a longer
/// list; one that is not found is looked for in what was added.
pub proof fn lemma_find_kept(a: Seq<Seq<char>>, b: Seq<Seq<char>>, name: Seq<char>, i: int)
    requires
        0 <= i <= a.len(),
        a.len() <= b.len(),
        forall|k: int| 0 <= k < a.len() ==> a[k] == b[k],
    ensures
        find_name(a, name, i) < a.len() ==> find_name(b, name, i) == find_name(a, name, i),
        find_name(a, name, i) >= a.len() ==> find_name(b, name, i) == find_name(
            b,
            name,
            a.len() as int,
        ),
        b == a.push(name) && find_name(a, name, i) >= a.len() ==> find_name(b, name, i) == a.len(),
    decreases a.len() - i,
{
    if i < a.len() {
        assert(a[i] == b[i]);
        if a[i] != name {
            lemma_find_kept(a, b, name, i + 1);
        }
    } else if b == a.push(name) {
        assert(b[a.len() as int] == name);
    }
}

} // verus!
