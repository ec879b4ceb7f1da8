use crate::caves::{
    count_next, count_spec, count_targets, edges_ok, lemma_reach, lemma_step, next_spec, reach,
    weight, without_spec, VisitState,
};
use vstd::prelude::*;
use vstd::relations::injective_on;
use vstd::set_lib::{lemma_map_size, lemma_set_disjoint_lens};

verus! {

/// Whether cave `c` is a small one.
pub open spec fn small(can_multi: Seq<bool>, c: usize) -> bool {
    c < can_multi.len() && !can_multi[c as int]
}

/// How often cave `c` stands in the walk.
pub open spec fn times(w: Seq<usize>, c: usize) -> nat
    decreases w.len(),
{
    if w.len() == 0 {
        0
    } else {
        (if w[0] == c {
            1nat
        } else {
            0nat
        }) + times(w.skip(1), c)
    }
}

/// The `i`-th step of a walk: a cave and the one after it.
pub open spec fn step(w: Seq<usize>, i: int) -> (usize, usize) {
    (w[i], w[i + 1])
}

/// Whether a walk leads from `start` to `end` along the passages and
/// stops where it first comes to `end`.
pub open spec fn route(w: Seq<usize>, start: usize, end: usize, paths: Seq<(usize, usize)>) -> bool {
    &&& w.len() >= 1
    &&& w[0] == start
    &&& w.last() == end
    &&& forall|i: int| 0 <= i < w.len() - 1 ==> #[trigger] w[i] != end
    &&& forall|i: int| 0 <= i < w.len() - 1 ==> paths.contains(#[trigger] step(w, i))
}

/// Whether the walk keeps the rule on small caves.
///
/// `NoTwice`: no small cave stands twice. `CanTwice`: at most one small
/// cave stands twice and none more often, and where the walk sets out
/// from its first cave, that one stands once. `Needs(n)`: the walk comes
/// to `n` once, and no other small cave stands twice.
pub open spec fn allowed(w: Seq<usize>, can_multi: Seq<bool>, state: VisitState, is_start: bool) -> bool {
    match state {
        VisitState::NoTwice => forall|c: usize| small(can_multi, c) ==> #[trigger] times(w, c) <= 1,
        VisitState::Needs(n) => {
            &&& times(w, n) == 1
            &&& forall|c: usize| small(can_multi, c) && c != n ==> #[trigger] times(w, c) <= 1
        },
        VisitState::CanTwice => {
            &&& forall|c: usize| small(can_multi, c) ==> #[trigger] times(w, c) <= 2
            &&& forall|c: usize, d: usize|
                small(can_multi, c) && small(can_multi, d) && #[trigger] times(w, c) == 2
                    && #[trigger] times(w, d) == 2 ==> c == d
            &&& is_start && w.len() > 0 && small(can_multi, w[0]) ==> times(w, w[0]) == 1
        },
    }
}

/// Whether `w` is a walk from `start` to `end` that keeps the rule on
/// small caves.
pub open spec fn walk(
    w: Seq<usize>,
    start: usize,
    end: usize,
    paths: Seq<(usize, usize)>,
    can_multi: Seq<bool>,
    state: VisitState,
    is_start: bool,
) -> bool {
    route(w, start, end, paths) && allowed(w, can_multi, state, is_start)
}

/// All walks from `start` to `end` that keep the rule on small caves.
pub open spec fn walks(
    start: usize,
    end: usize,
    paths: Seq<(usize, usize)>,
    can_multi: Seq<bool>,
    state: VisitState,
    is_start: bool,
) -> Set<Seq<usize>> {
    Set::new(|w: Seq<usize>| walk(w, start, end, paths, can_multi, state, is_start))
}

/// A walk that has to come back to a cave has left a small cave other
/// than `end`, and is on its way.
pub open spec fn on_its_way(state: VisitState, can_multi: Seq<bool>, end: usize, is_start: bool) -> bool {
    match state {
        VisitState::Needs(n) => small(can_multi, n) && n != end && !is_start,
        _ => true,
    }
}

/// A cave stands in a walk no times exactly if no place of the walk
/// holds it.
pub proof fn lemma_absent(w: Seq<usize>, c: usize)
    ensures
        times(w, c) == 0 <==> (forall|i: int| 0 <= i < w.len() ==> w[i] != c),
    decreases w.len(),
{
    if w.len() > 0 {
        let rest = w.skip(1);
        lemma_absent(rest, c);
        if times(w, c) == 0 {
            assert forall|i: int| 0 <= i < w.len() implies w[i] != c by {
                if i > 0 {
                    assert(rest[i - 1] == w[i]);
                }
            }
        }
        if forall|i: int| 0 <= i < w.len() ==> w[i] != c {
            assert forall|i: int| 0 <= i < rest.len() implies rest[i] != c by {
                assert(rest[i] == w[i + 1]);
            }
        }
    }
}

/// The passages that are left when cave `n` is closed are those that do
/// not touch it.
pub proof fn lemma_without_holds(paths: Seq<(usize, usize)>, n: usize, e: (usize, usize))
    ensures
        without_spec(paths, n).contains(e) <==> paths.contains(e) && e.0 != n && e.1 != n,
    decreases paths.len(),
{
    if paths.len() > 0 {
        let head = paths.drop_last();
        let last = paths.last();
        lemma_without_holds(head, n, e);
        let w = without_spec(paths, n);
        let wh = without_spec(head, n);
        if w.contains(e) {
            let i = choose|i: int| 0 <= i < w.len() && w[i] == e;
            if i < wh.len() {
                assert(wh[i] == e);
                assert(wh.contains(e));
                let j = choose|j: int| 0 <= j < head.len() && head[j] == e;
                assert(paths[j] == e);
            } else {
                assert(paths[paths.len() - 1] == e);
            }
        }
        if paths.contains(e) && e.0 != n && e.1 != n {
            let j = choose|j: int| 0 <= j < paths.len() && paths[j] == e;
            if j < head.len() {
                assert(head[j] == e);
                assert(head.contains(e));
                let i = choose|i: int| 0 <= i < wh.len() && wh[i] == e;
                assert(w[i] == e);
            } else {
                assert(w[w.len() - 1] == e);
            }
        }
    }
}

/// Closing a cave lists no passage twice that was listed once.
pub proof fn lemma_without_distinct(paths: Seq<(usize, usize)>, n: usize)
    requires
        paths.no_duplicates(),
    ensures
        without_spec(paths, n).no_duplicates(),
    decreases paths.len(),
{
    if paths.len() > 0 {
        let head = paths.drop_last();
        let last = paths.last();
        assert forall|i: int, j: int| 0 <= i < j < head.len() implies head[i] != head[j] by {
            assert(paths[i] != paths[j]);
        }
        lemma_without_distinct(head, n);
        let w = without_spec(paths, n);
        let wh = without_spec(head, n);
        if last.0 != n && last.1 != n {
            assert forall|i: int, j: int| 0 <= i < j < w.len() implies w[i] != w[j] by {
                if j == wh.len() {
                    if w[i] == last {
                        assert(wh[i] == last);
                        assert(wh.contains(last));
                        lemma_without_holds(head, n, last);
                        let k = choose|k: int| 0 <= k < head.len() && head[k] == last;
                        assert(paths[k] == paths[paths.len() - 1]);
                    }
                } else {
                    assert(wh[i] != wh[j]);
                }
            }
        }
    }
}

/// Every cave that a passage leads to from `n` stands among those
/// reached from `n`.
pub proof fn lemma_reach_holds(paths: Seq<(usize, usize)>, n: usize, t: usize)
    ensures
        reach(paths, n).contains(t) <==> paths.contains((n, t)),
    decreases paths.len(),
{
    if paths.len() > 0 {
        let head = paths.drop_last();
        let last = paths.last();
        lemma_reach_holds(head, n, t);
        let r = reach(paths, n);
        let rh = reach(head, n);
        if r.contains(t) {
            let i = choose|i: int| 0 <= i < r.len() && r[i] == t;
            if i < rh.len() {
                assert(rh[i] == t);
                assert(rh.contains(t));
                let j = choose|j: int| 0 <= j < head.len() && head[j] == (n, t);
                assert(paths[j] == (n, t));
            } else {
                assert(paths[paths.len() - 1] == (n, t));
            }
        }
        if paths.contains((n, t)) {
            let j = choose|j: int| 0 <= j < paths.len() && paths[j] == (n, t);
            if j < head.len() {
                assert(head[j] == (n, t));
                assert(head.contains((n, t)));
                let i = choose|i: int| 0 <= i < rh.len() && rh[i] == t;
                assert(r[i] == t);
            } else {
                assert(r[r.len() - 1] == t);
            }
        }
    }
}

/// Where no passage is listed twice, no cave is reached twice from `n`.
pub proof fn lemma_reach_distinct(paths: Seq<(usize, usize)>, n: usize)
    requires
        paths.no_duplicates(),
    ensures
        reach(paths, n).no_duplicates(),
    decreases paths.len(),
{
    if paths.len() > 0 {
        let head = paths.drop_last();
        let last = paths.last();
        assert forall|i: int, j: int| 0 <= i < j < head.len() implies head[i] != head[j] by {
            assert(paths[i] != paths[j]);
        }
        lemma_reach_distinct(head, n);
        let r = reach(paths, n);
        let rh = reach(head, n);
        if last.0 == n {
            assert forall|i: int, j: int| 0 <= i < j < r.len() implies r[i] != r[j] by {
                if j == rh.len() {
                    if r[i] == last.1 {
                        assert(rh[i] == last.1);
                        assert(rh.contains(last.1));
                        lemma_reach_holds(head, n, last.1);
                        let k = choose|k: int| 0 <= k < head.len() && head[k] == (n, last.1);
                        assert(paths[k] == paths[paths.len() - 1]);
                    }
                } else {
                    assert(rh[i] != rh[j]);
                }
            }
        }
    }
}

/// A walk from `c` to another cave is a first step and a walk from the
/// second cave on.
pub proof fn lemma_frame(w: Seq<usize>, c: usize, t: usize, end: usize, paths: Seq<(usize, usize)>)
    requires
        c != end,
    ensures
        (route(w, c, end, paths) && w[1] == t) <==> (w.len() >= 2 && w[0] == c && paths.contains(
            (c, t),
        ) && route(w.skip(1), t, end, paths)),
{
    let rest = w.skip(1);
    if route(w, c, end, paths) && w[1] == t {
        assert(w.len() >= 2);
        assert(step(w, 0) == (c, t));
        assert(rest.last() == w.last());
        assert forall|i: int| 0 <= i < rest.len() - 1 implies #[trigger] rest[i] != end by {
            assert(rest[i] == w[i + 1]);
        }
        assert forall|i: int| 0 <= i < rest.len() - 1 implies paths.contains(
            #[trigger] step(rest, i),
        ) by {
            assert(step(rest, i) == step(w, i + 1));
        }
    }
    if w.len() >= 2 && w[0] == c && paths.contains((c, t)) && route(rest, t, end, paths) {
        assert(rest[0] == w[1]);
        assert(rest.last() == w.last());
        assert forall|i: int| 0 <= i < w.len() - 1 implies #[trigger] w[i] != end by {
            if i > 0 {
                assert(rest[i - 1] == w[i]);
            }
        }
        assert forall|i: int| 0 <= i < w.len() - 1 implies paths.contains(#[trigger] step(w, i)) by {
            if i > 0 {
                assert(step(rest, i - 1) == step(w, i));
            } else {
                assert(step(w, 0) == (c, t));
            }
        }
    }
}

/// A walk to `end` keeps to the passages that are left when another
/// cave is closed exactly if it never comes to that cave.
pub proof fn lemma_route_without(
    w: Seq<usize>,
    t: usize,
    end: usize,
    paths: Seq<(usize, usize)>,
    c: usize,
)
    requires
        c != end,
    ensures
        route(w, t, end, without_spec(paths, c)) <==> (route(w, t, end, paths) && times(w, c) == 0),
{
    let less = without_spec(paths, c);
    lemma_absent(w, c);
    if route(w, t, end, less) {
        assert forall|i: int| 0 <= i < w.len() - 1 implies paths.contains(#[trigger] step(w, i)) by {
            lemma_without_holds(paths, c, step(w, i));
        }
        assert forall|i: int| 0 <= i < w.len() implies w[i] != c by {
            if i < w.len() - 1 {
                lemma_without_holds(paths, c, step(w, i));
            } else if i > 0 {
                lemma_without_holds(paths, c, step(w, i - 1));
            }
        }
    }
    if route(w, t, end, paths) && times(w, c) == 0 {
        assert forall|i: int| 0 <= i < w.len() - 1 implies less.contains(#[trigger] step(w, i)) by {
            lemma_without_holds(paths, c, step(w, i));
        }
    }
}

/// Which of the ways of going on from cave `c` the walk `w` takes: the
/// second one where it leaves a small cave open to come back to it.
pub open spec fn branch(
    w: Seq<usize>,
    c: usize,
    can_multi: Seq<bool>,
    state: VisitState,
    is_start: bool,
) -> int {
    if !can_multi[c as int] && !is_start && state is CanTwice && times(w.skip(1), c) != 0 {
        1
    } else {
        0
    }
}

/// Leaving a big cave changes nothing about the rule on small caves.
pub proof fn lemma_allowed_big(
    w: Seq<usize>,
    c: usize,
    can_multi: Seq<bool>,
    state: VisitState,
    is_start: bool,
)
    requires
        w.len() >= 2,
        w[0] == c,
        c < can_multi.len(),
        can_multi[c as int],
        state matches VisitState::Needs(n) ==> small(can_multi, n),
    ensures
        allowed(w, can_multi, state, is_start) <==> allowed(w.skip(1), can_multi, state, false),
{
    let rest = w.skip(1);
    assert forall|d: usize| small(can_multi, d) implies times(w, d) == times(rest, d) by {}
    if allowed(w, can_multi, state, is_start) {
        assert forall|d: usize| small(can_multi, d) implies #[trigger] times(rest, d) == times(
            w,
            d,
        ) by {}
        assert(allowed(rest, can_multi, state, false));
    }
    if allowed(rest, can_multi, state, false) {
        assert forall|d: usize| small(can_multi, d) implies #[trigger] times(w, d) == times(
            rest,
            d,
        ) by {}
        assert(allowed(w, can_multi, state, is_start));
    }
}

/// Leaving a small cave for good: the rest of the walk keeps the rule
/// and stays away from the cave.
pub proof fn lemma_allowed_closed(
    w: Seq<usize>,
    c: usize,
    can_multi: Seq<bool>,
    state: VisitState,
    is_start: bool,
)
    requires
        w.len() >= 2,
        w[0] == c,
        small(can_multi, c),
        state matches VisitState::Needs(n) ==> small(can_multi, n) && !is_start,
    ensures
        ({
            let then = next_spec(state, c, is_start, Seq::empty(), false)[0].0;
            (allowed(w, can_multi, state, is_start) && branch(w, c, can_multi, state, is_start)
                == 0) <==> (allowed(w.skip(1), can_multi, then, false) && times(w.skip(1), c) == 0)
        }),
{
    let rest = w.skip(1);
    let then = next_spec(state, c, is_start, Seq::empty(), false)[0].0;
    assert(times(w, c) == 1 + times(rest, c));
    if allowed(w, can_multi, state, is_start) && branch(w, c, can_multi, state, is_start) == 0 {
        assert(times(rest, c) == 0);
        assert forall|d: usize| small(can_multi, d) implies #[trigger] times(rest, d) <= times(
            w,
            d,
        ) by {}
        assert(allowed(rest, can_multi, then, false)) by {
            match state {
                VisitState::Needs(n) => {
                    if n != c {
                        assert(times(rest, n) == times(w, n));
                    }
                },
                _ => {},
            }
        }
    }
    if allowed(rest, can_multi, then, false) && times(rest, c) == 0 {
        assert forall|d: usize| small(can_multi, d) && d != c implies #[trigger] times(w, d)
            == times(rest, d) by {}
        assert(times(w, c) == 1);
        assert(allowed(w, can_multi, state, is_start)) by {
            match state {
                VisitState::Needs(n) => {
                    if n != c {
                        assert(times(rest, n) == times(w, n));
                    }
                },
                _ => {},
            }
        }
    }
}

/// Leaving a small cave open: the rest of the walk comes back to it once
/// and enters no other small cave twice.
pub proof fn lemma_allowed_open(w: Seq<usize>, c: usize, can_multi: Seq<bool>)
    requires
        w.len() >= 2,
        w[0] == c,
        small(can_multi, c),
    ensures
        (allowed(w, can_multi, VisitState::CanTwice, false) && branch(
            w,
            c,
            can_multi,
            VisitState::CanTwice,
            false,
        ) == 1) <==> allowed(w.skip(1), can_multi, VisitState::Needs(c), false),
{
    let rest = w.skip(1);
    assert(times(w, c) == 1 + times(rest, c));
    if allowed(w, can_multi, VisitState::CanTwice, false) && times(rest, c) != 0 {
        assert(times(w, c) <= 2);
        assert(times(w, c) == 2);
        assert forall|d: usize| small(can_multi, d) && d != c implies #[trigger] times(rest, d)
            <= 1 by {
            assert(times(rest, d) == times(w, d));
            assert(times(w, d) <= 2);
        }
    }
    if allowed(rest, can_multi, VisitState::Needs(c), false) {
        assert(times(w, c) == 2);
        assert forall|d: usize| small(can_multi, d) implies #[trigger] times(w, d) <= 2 by {
            if d != c {
                assert(times(rest, d) == times(w, d));
            }
        }
        assert forall|d: usize, e: usize|
            small(can_multi, d) && small(can_multi, e) && #[trigger] times(w, d) == 2
                && #[trigger] times(w, e) == 2 implies d == e by {
            if d != c {
                assert(times(rest, d) == times(w, d));
            }
            if e != c {
                assert(times(rest, e) == times(w, e));
            }
        }
    }
}

/// A walk from `c` to another cave is a first step to some cave `t` and
/// a walk from `t` in the way that its branch names; and every such
/// piece is a walk from `c`.
pub proof fn lemma_unfold(
    w: Seq<usize>,
    c: usize,
    t: usize,
    end: usize,
    paths: Seq<(usize, usize)>,
    can_multi: Seq<bool>,
    state: VisitState,
    is_start: bool,
    j: int,
)
    requires
        c != end,
        c < can_multi.len(),
        on_its_way(state, can_multi, end, is_start),
        paths.contains((c, t)),
        0 <= j < next_spec(state, c, is_start, paths, can_multi[c as int]).len(),
    ensures
        ({
            let next = next_spec(state, c, is_start, paths, can_multi[c as int])[j];
            pieces(c, t, end, next.1, can_multi, next.0).contains(w) <==> (walk(
                w,
                c,
                end,
                paths,
                can_multi,
                state,
                is_start,
            ) && w[1] == t && branch(w, c, can_multi, state, is_start) == j)
        }),
{
    let next = next_spec(state, c, is_start, paths, can_multi[c as int])[j];
    let rest = w.skip(1);
    lemma_frame(w, c, t, end, paths);
    if w.len() >= 2 && w[0] == c {
        assert(rest[0] == w[1]);
        if can_multi[c as int] {
            lemma_allowed_big(w, c, can_multi, state, is_start);
        } else if j == 1 {
            lemma_allowed_open(w, c, can_multi);
        } else {
            lemma_allowed_closed(w, c, can_multi, state, is_start);
            lemma_route_without(rest, t, end, paths, c);
            assert(next.1 == without_spec(paths, c));
            assert(next.0 == next_spec(state, c, is_start, Seq::empty(), false)[0].0);
        }
    }
}

/// The walks that begin with cave `c` and go on as a walk from `t`.
pub open spec fn pieces(
    c: usize,
    t: usize,
    end: usize,
    paths: Seq<(usize, usize)>,
    can_multi: Seq<bool>,
    state: VisitState,
) -> Set<Seq<usize>> {
    Set::new(
        |w: Seq<usize>|
            w.len() >= 2 && w[0] == c && walk(w.skip(1), t, end, paths, can_multi, state, false),
    )
}

/// There are as many walks that begin with `c` and go on from `t` as
/// there are walks from `t`.
pub proof fn lemma_piece_size(
    c: usize,
    t: usize,
    end: usize,
    paths: Seq<(usize, usize)>,
    can_multi: Seq<bool>,
    state: VisitState,
)
    requires
        walks(t, end, paths, can_multi, state, false).finite(),
    ensures
        pieces(c, t, end, paths, can_multi, state).finite(),
        pieces(c, t, end, paths, can_multi, state).len() == walks(
            t,
            end,
            paths,
            can_multi,
            state,
            false,
        ).len(),
{
    let x = walks(t, end, paths, can_multi, state, false);
    let y = pieces(c, t, end, paths, can_multi, state);
    let f = |v: Seq<usize>| seq![c] + v;
    assert forall|a: Seq<usize>, b: Seq<usize>|
        x.contains(a) && x.contains(b) && #[trigger] f(a) == #[trigger] f(b) implies a == b by {
        assert(f(a).skip(1) =~= a);
        assert(f(b).skip(1) =~= b);
    }
    assert(injective_on(f, x));
    assert forall|w: Seq<usize>| x.map(f).contains(w) <==> y.contains(w) by {
        if x.map(f).contains(w) {
            let v = choose|v: Seq<usize>| x.contains(v) && w == f(v);
            assert(w.skip(1) =~= v);
        }
        if y.contains(w) {
            let v = w.skip(1);
            assert(x.contains(v));
            assert(f(v) =~= w);
        }
    }
    assert(x.map(f) =~= y);
    lemma_map_size(x, y, f);
}

/// Whether `t` stands in `targets` at `i` or later.
pub open spec fn later(targets: Seq<usize>, i: int, t: usize) -> bool {
    exists|k: int| i <= k < targets.len() && targets[k] == t
}

/// The walks from `start` whose second cave is `t`.
pub open spec fn walks_by(
    start: usize,
    end: usize,
    paths: Seq<(usize, usize)>,
    can_multi: Seq<bool>,
    state: VisitState,
    is_start: bool,
    t: usize,
) -> Set<Seq<usize>> {
    Set::new(
        |w: Seq<usize>| walk(w, start, end, paths, can_multi, state, is_start) && w[1] == t,
    )
}

/// The walks from `start` whose second cave stands in `targets` at `i`
/// or later.
pub open spec fn walks_from(
    start: usize,
    end: usize,
    paths: Seq<(usize, usize)>,
    can_multi: Seq<bool>,
    state: VisitState,
    is_start: bool,
    targets: Seq<usize>,
    i: int,
) -> Set<Seq<usize>> {
    Set::new(
        |w: Seq<usize>|
            walk(w, start, end, paths, can_multi, state, is_start) && later(targets, i, w[1]),
    )
}

/// The count of paths is the number of walks: of the lists of caves
/// that lead from `start` to `end` along the passages, stop where they
/// first come to `end`, and keep the rule on small caves.
pub proof fn lemma_count(
    start: usize,
    end: usize,
    paths: Seq<(usize, usize)>,
    can_multi: Seq<bool>,
    state: VisitState,
    is_start: bool,
)
    requires
        start == end || (edges_ok(paths, can_multi) && start < can_multi.len()),
        paths.no_duplicates(),
        on_its_way(state, can_multi, end, is_start),
    ensures
        walks(start, end, paths, can_multi, state, is_start).finite(),
        walks(start, end, paths, can_multi, state, is_start).len() == count_spec(
            start,
            end,
            paths,
            can_multi,
            state,
            is_start,
        ),
    decreases weight(paths, state, can_multi[start as int]), 2int, 0int,
{
    let all = walks(start, end, paths, can_multi, state, is_start);
    if start == end {
        let only = seq![end];
        assert forall|w: Seq<usize>| all.contains(w) implies w == only by {
            if w.len() > 1 {
                assert(w[0] != end);
            }
            assert(w =~= only);
        }
        assert(only.skip(1) =~= Seq::<usize>::empty());
        assert forall|c: usize| #[trigger] times(only, c) <= 1 by {
            assert(times(only.skip(1), c) == 0);
        }
        if state is Needs {
            assert(times(only, state->Needs_0) == 0) by {
                assert(times(only.skip(1), state->Needs_0) == 0);
            }
            assert(all =~= Set::<Seq<usize>>::empty());
        } else {
            assert(route(only, start, end, paths));
            assert(allowed(only, can_multi, state, is_start));
            assert(all =~= Set::<Seq<usize>>::empty().insert(only));
        }
    } else {
        let targets = reach(paths, start);
        lemma_count_targets(start, end, paths, can_multi, state, is_start, 0);
        let some = walks_from(start, end, paths, can_multi, state, is_start, targets, 0);
        assert forall|w: Seq<usize>| all.contains(w) implies some.contains(w) by {
            assert(w.len() >= 2);
            assert(paths.contains(step(w, 0)));
            lemma_reach_holds(paths, start, w[1]);
            let k = choose|k: int| 0 <= k < targets.len() && targets[k] == w[1];
            assert(later(targets, 0, w[1]));
        }
        assert(all =~= some);
    }
}

/// The walks whose second cave stands in the list of caves reached, at
/// `i` or later, are as many as the count from the `i`-th on.
pub proof fn lemma_count_targets(
    start: usize,
    end: usize,
    paths: Seq<(usize, usize)>,
    can_multi: Seq<bool>,
    state: VisitState,
    is_start: bool,
    i: int,
)
    requires
        start != end,
        edges_ok(paths, can_multi),
        start < can_multi.len(),
        paths.no_duplicates(),
        on_its_way(state, can_multi, end, is_start),
        0 <= i <= reach(paths, start).len(),
    ensures
        walks_from(start, end, paths, can_multi, state, is_start, reach(paths, start), i).finite(),
        walks_from(start, end, paths, can_multi, state, is_start, reach(paths, start), i).len()
            == count_targets(start, end, paths, can_multi, state, is_start, reach(paths, start), i),
    decreases weight(paths, state, can_multi[start as int]), 1int, reach(paths, start).len() - i,
{
    let targets = reach(paths, start);
    let these = walks_from(start, end, paths, can_multi, state, is_start, targets, i);
    if i >= targets.len() {
        assert(these =~= Set::<Seq<usize>>::empty());
    } else {
        let t = targets[i];
        lemma_reach(paths, start);
        lemma_reach_distinct(paths, start);
        lemma_count_next(start, end, paths, can_multi, state, is_start, t);
        lemma_count_targets(start, end, paths, can_multi, state, is_start, i + 1);
        let first = walks_by(start, end, paths, can_multi, state, is_start, t);
        let more = walks_from(start, end, paths, can_multi, state, is_start, targets, i + 1);
        assert forall|w: Seq<usize>| these.contains(w) <==> first.union(more).contains(w) by {
            if these.contains(w) {
                let k = choose|k: int| i <= k < targets.len() && targets[k] == w[1];
                if k > i {
                    assert(later(targets, i + 1, w[1]));
                }
            }
            if first.contains(w) {
                assert(later(targets, i, w[1]));
            }
            if more.contains(w) {
                let k = choose|k: int| i + 1 <= k < targets.len() && targets[k] == w[1];
                assert(later(targets, i, w[1]));
            }
        }
        assert(these =~= first.union(more));
        assert(first.disjoint(more)) by {
            assert forall|w: Seq<usize>| !(first.contains(w) && more.contains(w)) by {
                if first.contains(w) && more.contains(w) {
                    let k = choose|k: int| i + 1 <= k < targets.len() && targets[k] == w[1];
                    assert(targets[i] == targets[k]);
                }
            }
        }
        lemma_set_disjoint_lens(first, more);
    }
}

/// The walks from `start` whose second cave is `t` are as many as the
/// count over the ways of going on to `t`.
pub proof fn lemma_count_next(
    start: usize,
    end: usize,
    paths: Seq<(usize, usize)>,
    can_multi: Seq<bool>,
    state: VisitState,
    is_start: bool,
    t: usize,
)
    requires
        start != end,
        edges_ok(paths, can_multi),
        start < can_multi.len(),
        paths.no_duplicates(),
        on_its_way(state, can_multi, end, is_start),
        paths.contains((start, t)),
    ensures
        walks_by(start, end, paths, can_multi, state, is_start, t).finite(),
        walks_by(start, end, paths, can_multi, state, is_start, t).len() == count_next(
            start,
            end,
            paths,
            can_multi,
            state,
            is_start,
            t,
            0,
        ),
    decreases weight(paths, state, can_multi[start as int]), 0int, 0int,
{
    let nexts = next_spec(state, start, is_start, paths, can_multi[start as int]);
    let these = walks_by(start, end, paths, can_multi, state, is_start, t);
    lemma_without_distinct(paths, start);
    lemma_step(start, t, paths, can_multi, state, is_start, 0);
    lemma_count(t, end, nexts[0].1, can_multi, nexts[0].0, false);
    lemma_piece_size(start, t, end, nexts[0].1, can_multi, nexts[0].0);
    let first = pieces(start, t, end, nexts[0].1, can_multi, nexts[0].0);
    assert forall|w: Seq<usize>| first.contains(w) <==> these.contains(w) && branch(
        w,
        start,
        can_multi,
        state,
        is_start,
    ) == 0 by {
        lemma_unfold(w, start, t, end, paths, can_multi, state, is_start, 0);
    }
    assert(count_next(start, end, paths, can_multi, state, is_start, t, 2) == 0);
    if nexts.len() == 1 {
        assert(count_next(start, end, paths, can_multi, state, is_start, t, 1) == 0);
        assert(these =~= first);
    } else {
        lemma_step(start, t, paths, can_multi, state, is_start, 1);
        lemma_count(t, end, nexts[1].1, can_multi, nexts[1].0, false);
        lemma_piece_size(start, t, end, nexts[1].1, can_multi, nexts[1].0);
        let second = pieces(start, t, end, nexts[1].1, can_multi, nexts[1].0);
        assert forall|w: Seq<usize>| second.contains(w) <==> these.contains(w) && branch(
            w,
            start,
            can_multi,
            state,
            is_start,
        ) == 1 by {
            lemma_unfold(w, start, t, end, paths, can_multi, state, is_start, 1);
        }
        assert(count_next(start, end, paths, can_multi, state, is_start, t, 1) == count_spec(
            t,
            end,
            nexts[1].1,
            can_multi,
            nexts[1].0,
            false,
        ));
        assert(these =~= first.union(second));
        assert(first.disjoint(second));
        lemma_set_disjoint_lens(first, second);
    }
}

} // verus!
