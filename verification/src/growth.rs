use crate::polymer::{
    can_grow, char_count, counted, ends_counted, extremes, find_char, find_link, grown,
    inc_char_spec, inc_spec, init_spec, lemma_find_link, lemma_find_same, lemma_inc,
    lemma_occurrences, link_count, occurrences, rule_for, score_spec, set_spec, Link,
};
use vstd::prelude::*;

verus! {

/// The chain after one step of growth: between every two neighbours
/// stands the element that the rules give for them, where they give one.
pub open spec fn grow(s: Seq<char>, rules: Seq<((char, char), char)>) -> Seq<char>
    decreases s.len(),
{
    if s.len() <= 1 {
        s
    } else {
        let a = s[s.len() - 2];
        let b = s[s.len() - 1];
        match rule_for(rules, a, b) {
            Some(ins) => grow(s.drop_last(), rules).push(ins).push(b),
            None => grow(s.drop_last(), rules).push(b),
        }
    }
}

/// The links of a chain but for the place after its last element: the
/// place before the first element, then every pair of neighbours.
pub open spec fn open_links(s: Seq<char>) -> Seq<Link>
    decreases s.len(),
{
    if s.len() == 0 {
        seq![]
    } else if s.len() == 1 {
        seq![(None::<char>, Some(s[0]))]
    } else {
        open_links(s.drop_last()).push((Some(s[s.len() - 2]), Some(s[s.len() - 1])))
    }
}

/// The links of a chain that is not empty.
pub open spec fn links_of(s: Seq<char>) -> Seq<Link> {
    open_links(s).push((Some(s.last()), None::<char>))
}

/// How often the link `k` stands in the list.
pub open spec fn occurs(ls: Seq<Link>, k: Link) -> int
    decreases ls.len(),
{
    if ls.len() == 0 {
        0
    } else {
        occurs(ls.drop_last(), k) + (if ls.last() == k {
            1int
        } else {
            0int
        })
    }
}

/// How often the link `l` comes of the link `k` in one step of growth.
pub open spec fn comes_of(rules: Seq<((char, char), char)>, k: Link, l: Link) -> int {
    match k {
        (Some(a), Some(b)) => match rule_for(rules, a, b) {
            Some(ins) => (if l == (Some(a), Some(ins)) {
                1int
            } else {
                0int
            }) + (if l == (Some(ins), Some(b)) {
                1int
            } else {
                0int
            }),
            None => if l == k {
                1
            } else {
                0
            },
        },
        _ => if l == k {
            1
        } else {
            0
        },
    }
}

/// How often the link `l` comes of the links of the list.
pub open spec fn grown_occurs(rules: Seq<((char, char), char)>, ls: Seq<Link>, l: Link) -> int
    decreases ls.len(),
{
    if ls.len() == 0 {
        0
    } else {
        grown_occurs(rules, ls.drop_last(), l) + comes_of(rules, ls.last(), l)
    }
}

/// How often the link `l` comes of the first `n` entries of a list of
/// counted links.
pub open spec fn grown_count(
    rules: Seq<((char, char), char)>,
    map: Seq<(Link, usize)>,
    l: Link,
    n: int,
) -> int
    decreases n,
{
    if n <= 0 {
        0
    } else {
        grown_count(rules, map, l, n - 1) + map[n - 1].1 * comes_of(rules, map[n - 1].0, l)
    }
}

/// Whether no link stands twice in the list and none is counted zero
/// times.
pub open spec fn tidy(map: Seq<(Link, usize)>) -> bool {
    &&& forall|i: int, j: int| 0 <= i < j < map.len() ==> map[i].0 != map[j].0
    &&& forall|i: int| 0 <= i < map.len() ==> (#[trigger] map[i]).1 >= 1
}

/// Whether the list counts the links of the chain `s`: no link stands
/// twice in it, and each link is counted as often as it occurs in `s`.
pub open spec fn describes(map: Seq<(Link, usize)>, s: Seq<char>) -> bool {
    tidy(map) && forall|k: Link| link_count(map, k) == #[trigger] occurs(links_of(s), k)
}

pub proof fn lemma_occurs_nonneg(ls: Seq<Link>, k: Link)
    ensures
        0 <= occurs(ls, k) <= ls.len(),
    decreases ls.len(),
{
    if ls.len() > 0 {
        lemma_occurs_nonneg(ls.drop_last(), k);
    }
}

pub proof fn lemma_occurs_push(ls: Seq<Link>, x: Link, k: Link)
    ensures
        occurs(ls.push(x), k) == occurs(ls, k) + (if x == k {
            1int
        } else {
            0int
        }),
{
    assert(ls.push(x).drop_last() =~= ls);
}

pub proof fn lemma_grown_occurs_push(
    rules: Seq<((char, char), char)>,
    ls: Seq<Link>,
    x: Link,
    l: Link,
)
    ensures
        grown_occurs(rules, ls.push(x), l) == grown_occurs(rules, ls, l) + comes_of(rules, x, l),
{
    assert(ls.push(x).drop_last() =~= ls);
}

/// Counting a link keeps the list tidy.
pub proof fn lemma_inc_tidy(map: Seq<(Link, usize)>, k: Link, v: usize)
    requires
        tidy(map),
        v >= 1,
        link_count(map, k) + v <= usize::MAX,
    ensures
        tidy(inc_spec(map, k, v)),
{
    lemma_find_link(map, k, 0);
    let out = inc_spec(map, k, v);
    assert forall|i: int, j: int| 0 <= i < j < out.len() implies out[i].0 != out[j].0 by {
        if find_link(map, k, 0) < map.len() {
            assert(out[i].0 == map[i].0 && out[j].0 == map[j].0);
        } else if j == map.len() {
            assert(out[i] == map[i]);
        }
    }
    assert forall|i: int| 0 <= i < out.len() implies (#[trigger] out[i]).1 >= 1 by {
        if i < map.len() {
            assert(map[i].1 >= 1);
        }
    }
}

/// Setting the count of a link keeps the list tidy, gives the link its
/// count and leaves the other counts alone.
pub proof fn lemma_set(map: Seq<(Link, usize)>, k: Link, v: usize, other: Link)
    requires
        tidy(map),
        v >= 1,
    ensures
        tidy(set_spec(map, k, v)),
        link_count(set_spec(map, k, v), other) == (if other == k {
            v as int
        } else {
            link_count(map, other)
        }),
{
    let out = set_spec(map, k, v);
    let at = find_link(map, k, 0);
    lemma_find_link(map, k, 0);
    lemma_find_link(map, other, 0);
    assert forall|j: int| 0 <= j < map.len() implies map[j].0 == out[j].0 by {}
    lemma_find_same(map, out, other, 0);
    lemma_find_link(out, other, 0);
    if at == map.len() {
        lemma_find_link(out, other, map.len() as int);
    }
    assert forall|i: int, j: int| 0 <= i < j < out.len() implies out[i].0 != out[j].0 by {
        if at < map.len() {
            assert(out[i].0 == map[i].0 && out[j].0 == map[j].0);
        } else if j == map.len() {
            assert(out[i] == map[i]);
        }
    }
    assert forall|i: int| 0 <= i < out.len() implies (#[trigger] out[i]).1 >= 1 by {
        if i < map.len() {
            assert(map[i].1 >= 1);
        }
    }
}

/// No place after a last element stands among the open links.
pub proof fn lemma_open_links(s: Seq<char>, k: Link)
    requires
        k.1 is None,
    ensures
        occurs(open_links(s), k) == 0,
        open_links(s).len() == s.len(),
    decreases s.len(),
{
    if s.len() == 1 {
        assert(open_links(s).drop_last() =~= Seq::<Link>::empty());
        assert(occurs(Seq::<Link>::empty(), k) == 0);
    } else if s.len() > 1 {
        lemma_open_links(s.drop_last(), k);
        lemma_occurs_push(
            open_links(s.drop_last()),
            (Some(s[s.len() - 2]), Some(s[s.len() - 1])),
            k,
        );
    }
}

/// The links counted up to the `n`-th element are the open links of the
/// chain as far as that element.
pub proof fn lemma_counted_describes(s: Seq<char>, n: int)
    requires
        0 <= n < s.len() <= usize::MAX,
    ensures
        tidy(counted(s, n)),
        forall|k: Link|
            link_count(counted(s, n), k) == #[trigger] occurs(open_links(s.subrange(0, n + 1)), k),
    decreases n,
{
    let part = s.subrange(0, n + 1);
    let map = counted(s, n);
    if n == 0 {
        let first = (None::<char>, Some(s[0]));
        assert(map == seq![(first, 1usize)]);
        assert(open_links(part) == seq![first]);
        assert forall|k: Link| link_count(map, k) == #[trigger] occurs(open_links(part), k) by {
            assert(open_links(part).drop_last() =~= Seq::<Link>::empty());
            assert(occurs(Seq::<Link>::empty(), k) == 0);
            lemma_find_link(map, k, 0);
        }
    } else {
        lemma_counted_describes(s, n - 1);
        let before = counted(s, n - 1);
        let shorter = s.subrange(0, n);
        let x = (Some(s[n - 1]), Some(s[n]));
        assert(part.drop_last() =~= shorter);
        assert(open_links(part) == open_links(shorter).push(x));
        lemma_occurs_nonneg(open_links(shorter), x);
        lemma_open_links(shorter, (Some('a'), None::<char>));
        assert(link_count(before, x) == occurs(open_links(shorter), x));
        lemma_inc_tidy(before, x, 1);
        assert forall|k: Link| link_count(map, k) == #[trigger] occurs(open_links(part), k) by {
            lemma_occurs_push(open_links(shorter), x, k);
            lemma_occurs_nonneg(open_links(shorter), x);
            lemma_open_links(shorter, (Some('a'), None::<char>));
            assert(link_count(before, x) == occurs(open_links(shorter), x));
            lemma_inc(before, x, 1, k);
            assert(link_count(before, k) == occurs(open_links(shorter), k));
        }
    }
}

/// The links that a chain begins with are the links of the chain.
pub proof fn lemma_init_describes(s: Seq<char>)
    requires
        0 < s.len() <= usize::MAX,
    ensures
        describes(init_spec(s), s),
{
    let n = s.len() - 1;
    let map = counted(s, n);
    let end = (Some(s.last()), None::<char>);
    lemma_counted_describes(s, n);
    assert(s.subrange(0, n + 1) =~= s);
    assert forall|k: Link| link_count(init_spec(s), k) == #[trigger] occurs(links_of(s), k) by {
        lemma_set(map, end, 1, k);
        lemma_occurs_push(open_links(s), end, k);
        lemma_open_links(s, end);
        assert(link_count(map, k) == occurs(open_links(s), k));
    }
    lemma_set(map, end, 1, end);
}

/// A place before a first or after a last element comes of itself
/// alone.
pub proof fn lemma_edge_comes(
    rules: Seq<((char, char), char)>,
    map: Seq<(Link, usize)>,
    l: Link,
    n: int,
)
    requires
        l.0 is None || l.1 is None,
        0 <= n <= map.len(),
        forall|i: int| 0 <= i < n ==> (#[trigger] map[i]).0 != l,
    ensures
        grown_count(rules, map, l, n) == 0,
    decreases n,
{
    if n > 0 {
        lemma_edge_comes(rules, map, l, n - 1);
        let c = map[n - 1].1 as int;
        let x = comes_of(rules, map[n - 1].0, l);
        assert(map[n - 1].0 != l);
        assert(x == 0);
        assert(c * x == 0) by (nonlinear_arith)
            requires
                x == 0,
        ;
    }
}

/// After the first `n` links have been carried over, every link is
/// counted as often as it comes of them.
pub proof fn lemma_grown_count(
    old: Seq<(Link, usize)>,
    rules: Seq<((char, char), char)>,
    n: int,
)
    requires
        tidy(old),
        0 <= n <= old.len(),
        can_grow(old, rules, n),
    ensures
        tidy(grown(old, rules, n)),
        forall|l: Link| #[trigger]
            link_count(grown(old, rules, n), l) == grown_count(rules, old, l, n),
    decreases n,
{
    if n <= 0 {
        assert forall|l: Link| #[trigger]
            link_count(grown(old, rules, n), l) == grown_count(rules, old, l, n) by {
            lemma_find_link(grown(old, rules, n), l, 0);
        }
    } else {
        lemma_grown_count(old, rules, n - 1);
        let new = grown(old, rules, n - 1);
        let out = grown(old, rules, n);
        let entry = old[n - 1];
        let c = entry.1;
        match entry.0 {
            (Some(a), Some(b)) => match rule_for(rules, a, b) {
                Some(ins) => {
                    let k1 = (Some(a), Some(ins));
                    let k2 = (Some(ins), Some(b));
                    let mid = inc_spec(new, k1, c);
                    lemma_inc_tidy(new, k1, c);
                    lemma_inc_tidy(mid, k2, c);
                    assert forall|l: Link| #[trigger]
                        link_count(out, l) == grown_count(rules, old, l, n) by {
                        lemma_inc(new, k1, c, l);
                        lemma_inc(mid, k2, c, l);
                        let x = comes_of(rules, entry.0, l);
                        assert(c * x == (if l == k1 {
                            c as int
                        } else {
                            0
                        }) + (if l == k2 {
                            c as int
                        } else {
                            0
                        })) by (nonlinear_arith)
                            requires
                                x == (if l == k1 {
                                    1int
                                } else {
                                    0int
                                }) + (if l == k2 {
                                    1int
                                } else {
                                    0int
                                }),
                        ;
                    }
                },
                None => {
                    lemma_inc_tidy(new, entry.0, c);
                    assert forall|l: Link| #[trigger]
                        link_count(out, l) == grown_count(rules, old, l, n) by {
                        lemma_inc(new, entry.0, c, l);
                        let x = comes_of(rules, entry.0, l);
                        assert(c * x == (if l == entry.0 {
                            c as int
                        } else {
                            0
                        })) by (nonlinear_arith)
                            requires
                                x == (if l == entry.0 {
                                    1int
                                } else {
                                    0int
                                }),
                        ;
                    }
                },
            },
            _ => {
                lemma_set(new, entry.0, c, entry.0);
                lemma_edge_comes(rules, old, entry.0, n - 1);
                assert forall|l: Link| #[trigger]
                    link_count(out, l) == grown_count(rules, old, l, n) by {
                    lemma_set(new, entry.0, c, l);
                    let x = comes_of(rules, entry.0, l);
                    assert(c * x == (if l == entry.0 {
                        c as int
                    } else {
                        0
                    })) by (nonlinear_arith)
                        requires
                            x == (if l == entry.0 {
                                1int
                            } else {
                                0int
                            }),
                    ;
                }
            },
        }
    }
}

/// The list of links without the link `k`.
pub open spec fn without(ls: Seq<Link>, k: Link) -> Seq<Link>
    decreases ls.len(),
{
    if ls.len() == 0 {
        seq![]
    } else if ls.last() == k {
        without(ls.drop_last(), k)
    } else {
        without(ls.drop_last(), k).push(ls.last())
    }
}

/// The sum of what `f` gives for the links of the list.
pub open spec fn tally(ls: Seq<Link>, f: spec_fn(Link) -> int) -> int
    decreases ls.len(),
{
    if ls.len() == 0 {
        0
    } else {
        tally(ls.drop_last(), f) + f(ls.last())
    }
}

/// The sum of what `f` gives for the first `n` links of a list of
/// counted links, each taken as often as it is counted.
pub open spec fn weigh(map: Seq<(Link, usize)>, f: spec_fn(Link) -> int, n: int) -> int
    decreases n,
{
    if n <= 0 {
        0
    } else {
        weigh(map, f, n - 1) + map[n - 1].1 * f(map[n - 1].0)
    }
}

pub proof fn lemma_tally_push(ls: Seq<Link>, x: Link, f: spec_fn(Link) -> int)
    ensures
        tally(ls.push(x), f) == tally(ls, f) + f(x),
{
    assert(ls.push(x).drop_last() =~= ls);
}

pub proof fn lemma_without(ls: Seq<Link>, k: Link, l: Link, f: spec_fn(Link) -> int)
    ensures
        occurs(without(ls, k), l) == (if l == k {
            0
        } else {
            occurs(ls, l)
        }),
        tally(ls, f) == tally(without(ls, k), f) + occurs(ls, k) * f(k),
    decreases ls.len(),
{
    if ls.len() > 0 {
        let head = ls.drop_last();
        lemma_without(head, k, l, f);
        let x = f(k);
        let n = occurs(head, k);
        if ls.last() == k {
            assert((n + 1) * x == n * x + x) by (nonlinear_arith);
        } else {
            lemma_occurs_push(without(head, k), ls.last(), l);
            lemma_tally_push(without(head, k), ls.last(), f);
        }
    } else {
        assert(0 * f(k) == 0);
    }
}

pub proof fn lemma_weigh_prefix(
    a: Seq<(Link, usize)>,
    b: Seq<(Link, usize)>,
    f: spec_fn(Link) -> int,
    n: int,
)
    requires
        0 <= n <= a.len() <= b.len(),
        forall|i: int| 0 <= i < n ==> a[i] == b[i],
    ensures
        weigh(a, f, n) == weigh(b, f, n),
    decreases n,
{
    if n > 0 {
        lemma_weigh_prefix(a, b, f, n - 1);
    }
}

/// Where no link is counted, there is no link.
pub proof fn lemma_none_occurs(map: Seq<(Link, usize)>, ls: Seq<Link>)
    requires
        map.len() == 0,
        forall|k: Link| link_count(map, k) == #[trigger] occurs(ls, k),
    ensures
        ls.len() == 0,
{
    if ls.len() > 0 {
        let k = ls.last();
        lemma_occurs_nonneg(ls.drop_last(), k);
        assert(occurs(ls, k) >= 1);
        lemma_find_link(map, k, 0);
        assert(link_count(map, k) == 0);
    }
}

/// Summing over the entries of a list of counted links gives what
/// summing over the links themselves gives.
pub proof fn lemma_regroup(map: Seq<(Link, usize)>, ls: Seq<Link>, f: spec_fn(Link) -> int)
    requires
        tidy(map),
        forall|k: Link| link_count(map, k) == #[trigger] occurs(ls, k),
    ensures
        weigh(map, f, map.len() as int) == tally(ls, f),
    decreases map.len(),
{
    if map.len() == 0 {
        lemma_none_occurs(map, ls);
    } else {
        let n = map.len() - 1;
        let head = map.drop_last();
        let k0 = map[n].0;
        let rest = without(ls, k0);
        lemma_find_link(map, k0, 0);
        assert(find_link(map, k0, 0) == n) by {
            if find_link(map, k0, 0) < n {
                assert(map[find_link(map, k0, 0)].0 != map[n].0);
            }
        }
        assert(link_count(map, k0) == map[n].1);
        assert forall|k: Link| link_count(head, k) == #[trigger] occurs(rest, k) by {
            lemma_without(ls, k0, k, f);
            lemma_find_link(head, k, 0);
            lemma_find_link(map, k, 0);
            assert forall|j: int| 0 <= j < head.len() implies head[j].0 == map[j].0 by {}
            lemma_find_same(head, map, k, 0);
            lemma_find_link(map, k, n);
            if k == k0 {
                if find_link(head, k, 0) < head.len() {
                    assert(map[find_link(head, k, 0)].0 != map[n].0);
                }
            } else {
                assert(link_count(map, k) == occurs(ls, k));
            }
        }
        assert forall|i: int, j: int| 0 <= i < j < head.len() implies head[i].0 != head[j].0 by {
            assert(head[i] == map[i] && head[j] == map[j]);
        }
        assert forall|i: int| 0 <= i < head.len() implies (#[trigger] head[i]).1 >= 1 by {
            assert(head[i] == map[i]);
        }
        lemma_regroup(head, rest, f);
        lemma_without(ls, k0, k0, f);
        lemma_weigh_prefix(head, map, f, n);
        assert(occurs(ls, k0) == map[n].1);
    }
}

/// What comes of links, written as sums.
pub proof fn lemma_grown_sums(
    rules: Seq<((char, char), char)>,
    map: Seq<(Link, usize)>,
    ls: Seq<Link>,
    l: Link,
    n: int,
)
    ensures
        grown_count(rules, map, l, n) == weigh(map, |k: Link| comes_of(rules, k, l), n),
        grown_occurs(rules, ls, l) == tally(ls, |k: Link| comes_of(rules, k, l)),
    decreases n,
{
    if n > 0 {
        lemma_grown_sums(rules, map, ls, l, n - 1);
    }
    lemma_grown_sums_links(rules, ls, l);
}

pub proof fn lemma_grown_sums_links(rules: Seq<((char, char), char)>, ls: Seq<Link>, l: Link)
    ensures
        grown_occurs(rules, ls, l) == tally(ls, |k: Link| comes_of(rules, k, l)),
    decreases ls.len(),
{
    if ls.len() > 0 {
        lemma_grown_sums_links(rules, ls.drop_last(), l);
    }
}

/// The chain grows at its end: the last element stays, and the open
/// links are those of the chain before it and what comes of the last
/// pair of neighbours.
pub proof fn lemma_grow_links(s: Seq<char>, rules: Seq<((char, char), char)>, l: Link)
    requires
        s.len() >= 1,
    ensures
        grow(s, rules).len() >= 1,
        grow(s, rules).last() == s.last(),
        occurs(open_links(grow(s, rules)), l) == grown_occurs(rules, open_links(s), l),
    decreases s.len(),
{
    if s.len() == 1 {
        let first = (None::<char>, Some(s[0]));
        assert(open_links(s) == seq![first]);
        assert(open_links(s).drop_last() =~= Seq::<Link>::empty());
        assert(occurs(Seq::<Link>::empty(), l) == 0);
        assert(grown_occurs(rules, Seq::<Link>::empty(), l) == 0);
    } else {
        let head = s.drop_last();
        let a = s[s.len() - 2];
        let b = s[s.len() - 1];
        lemma_grow_links(head, rules, l);
        let g = grow(head, rules);
        assert(g.last() == a);
        let pair = (Some(a), Some(b));
        lemma_grown_occurs_push(rules, open_links(head), pair, l);
        match rule_for(rules, a, b) {
            Some(ins) => {
                let g1 = g.push(ins);
                let g2 = g1.push(b);
                assert(g1.drop_last() =~= g);
                assert(g2.drop_last() =~= g1);
                assert(open_links(g1) == open_links(g).push((Some(a), Some(ins))));
                assert(open_links(g2) == open_links(g1).push((Some(ins), Some(b))));
                lemma_occurs_push(open_links(g), (Some(a), Some(ins)), l);
                lemma_occurs_push(open_links(g1), (Some(ins), Some(b)), l);
            },
            None => {
                let g1 = g.push(b);
                assert(g1.drop_last() =~= g);
                assert(open_links(g1) == open_links(g).push(pair));
                lemma_occurs_push(open_links(g), pair, l);
            },
        }
    }
}

/// One step of growth on the counted links is one step of growth of the
/// chain: where the list counts the links of a chain, the grown list
/// counts the links of the grown chain.
pub proof fn lemma_grown_describes(
    map: Seq<(Link, usize)>,
    rules: Seq<((char, char), char)>,
    s: Seq<char>,
)
    requires
        s.len() >= 1,
        describes(map, s),
        can_grow(map, rules, map.len() as int),
    ensures
        describes(grown(map, rules, map.len() as int), grow(s, rules)),
{
    let out = grown(map, rules, map.len() as int);
    let end = (Some(s.last()), None::<char>);
    lemma_grown_count(map, rules, map.len() as int);
    assert forall|l: Link| link_count(out, l) == #[trigger] occurs(
        links_of(grow(s, rules)),
        l,
    ) by {
        lemma_regroup(map, links_of(s), |k: Link| comes_of(rules, k, l));
        lemma_grown_sums(rules, map, links_of(s), l, map.len() as int);
        lemma_grow_links(s, rules, l);
        lemma_grown_occurs_push(rules, open_links(s), end, l);
        lemma_occurs_push(open_links(grow(s, rules)), end, l);
        assert(link_count(out, l) == grown_count(rules, map, l, map.len() as int));
    }
}

/// How often the element `c` is an end of the link `k`.
pub open spec fn ends(k: Link, c: char) -> int {
    (if k.0 == Some(c) {
        1int
    } else {
        0int
    }) + (if k.1 == Some(c) {
        1int
    } else {
        0int
    })
}

/// Every element of a chain is an end of two of its links.
pub proof fn lemma_two_ends(s: Seq<char>, c: char)
    requires
        s.len() >= 1,
    ensures
        tally(open_links(s), |k: Link| ends(k, c)) == 2 * occurrences(s, c, s.len() as int) - (
        if s.last() == c {
            1int
        } else {
            0int
        }),
        tally(links_of(s), |k: Link| ends(k, c)) == 2 * occurrences(s, c, s.len() as int),
    decreases s.len(),
{
    let f = |k: Link| ends(k, c);
    if s.len() == 1 {
        let first = (None::<char>, Some(s[0]));
        assert(open_links(s) == seq![first]);
        assert(open_links(s).drop_last() =~= Seq::<Link>::empty());
        assert(tally(Seq::<Link>::empty(), f) == 0);
        assert(occurrences(s, c, 0) == 0);
    } else {
        let head = s.drop_last();
        lemma_two_ends(head, c);
        lemma_same_occurrences(head, s, c, head.len() as int);
        lemma_tally_push(open_links(head), (Some(s[s.len() - 2]), Some(s[s.len() - 1])), f);
    }
    lemma_tally_push(open_links(s), (Some(s.last()), None::<char>), f);
}

pub proof fn lemma_same_occurrences(a: Seq<char>, b: Seq<char>, c: char, n: int)
    requires
        0 <= n <= a.len() <= b.len(),
        forall|i: int| 0 <= i < n ==> a[i] == b[i],
    ensures
        occurrences(a, c, n) == occurrences(b, c, n),
    decreases n,
{
    if n > 0 {
        lemma_same_occurrences(a, b, c, n - 1);
    }
}

/// Whether no element stands twice in the list and none is counted zero
/// times.
pub open spec fn tidy_chars(refs: Seq<(char, usize)>) -> bool {
    &&& forall|i: int, j: int| 0 <= i < j < refs.len() ==> refs[i].0 != refs[j].0
    &&& forall|i: int| 0 <= i < refs.len() ==> (#[trigger] refs[i]).1 >= 1
}

pub proof fn lemma_find_char(refs: Seq<(char, usize)>, c: char, i: int)
    requires
        0 <= i <= refs.len(),
    ensures
        i <= find_char(refs, c, i) <= refs.len(),
        find_char(refs, c, i) < refs.len() ==> refs[find_char(refs, c, i)].0 == c && char_count(
            refs,
            c,
            i,
        ) == refs[find_char(refs, c, i)].1,
        find_char(refs, c, i) == refs.len() ==> char_count(refs, c, i) == 0,
        forall|j: int| i <= j < find_char(refs, c, i) ==> (#[trigger] refs[j]).0 != c,
    decreases refs.len() - i,
{
    if i < refs.len() && refs[i].0 != c {
        lemma_find_char(refs, c, i + 1);
    }
}

pub proof fn lemma_find_char_same(a: Seq<(char, usize)>, b: Seq<(char, usize)>, c: char, i: int)
    requires
        0 <= i <= a.len(),
        a.len() <= b.len(),
        forall|j: int| 0 <= j < a.len() ==> a[j].0 == b[j].0,
    ensures
        find_char(a, c, i) < a.len() ==> find_char(b, c, i) == find_char(a, c, i),
        find_char(a, c, i) == a.len() ==> find_char(b, c, i) == find_char(b, c, a.len() as int),
    decreases a.len() - i,
{
    if i < a.len() {
        assert(a[i].0 == b[i].0);
        if a[i].0 != c {
            lemma_find_char_same(a, b, c, i + 1);
        }
    }
}

/// Counting an element `v` times more raises its count by `v`, leaves
/// the other counts alone and keeps the list tidy; it fails just when
/// the count leaves the range of `usize`.
pub proof fn lemma_inc_char(refs: Seq<(char, usize)>, c: char, v: usize, other: char)
    requires
        tidy_chars(refs),
        v >= 1,
    ensures
        inc_char_spec(refs, c, v) is Some <==> char_count(refs, c, 0) + v <= usize::MAX,
        inc_char_spec(refs, c, v) matches Some(out) ==> tidy_chars(out) && char_count(
            out,
            other,
            0,
        ) == char_count(refs, other, 0) + (if other == c {
            v as int
        } else {
            0
        }),
{
    let at = find_char(refs, c, 0);
    lemma_find_char(refs, c, 0);
    lemma_find_char(refs, other, 0);
    match inc_char_spec(refs, c, v) {
        Some(out) => {
            assert forall|j: int| 0 <= j < refs.len() implies refs[j].0 == out[j].0 by {}
            lemma_find_char_same(refs, out, other, 0);
            lemma_find_char(out, other, 0);
            if at == refs.len() {
                lemma_find_char(out, other, refs.len() as int);
            }
            assert forall|i: int, j: int| 0 <= i < j < out.len() implies out[i].0
                != out[j].0 by {
                if at < refs.len() {
                    assert(out[i].0 == refs[i].0 && out[j].0 == refs[j].0);
                } else if j == refs.len() {
                    assert(out[i] == refs[i]);
                }
            }
            assert forall|i: int| 0 <= i < out.len() implies (#[trigger] out[i]).1 >= 1 by {
                if i < refs.len() {
                    assert(refs[i].1 >= 1);
                }
            }
        },
        None => {},
    }
}

/// How often the element `d` is an end of the first `n` links of a
/// list of counted links, each taken as often as it is counted.
pub open spec fn ends_total(links: Seq<(Link, usize)>, d: char, n: int) -> int
    decreases n,
{
    if n <= 0 {
        0
    } else {
        ends_total(links, d, n - 1) + links[n - 1].1 * ends(links[n - 1].0, d)
    }
}

pub proof fn lemma_ends_total(links: Seq<(Link, usize)>, d: char, n: int)
    ensures
        ends_total(links, d, n) == weigh(links, |k: Link| ends(k, d), n),
    decreases n,
{
    if n > 0 {
        lemma_ends_total(links, d, n - 1);
    }
}

/// Whether the counts of the ends of the first `n` links stay in the
/// range of `usize` for every element.
pub open spec fn ends_fit(links: Seq<(Link, usize)>, n: int) -> bool {
    forall|d: char| #[trigger] ends_total(links, d, n) <= usize::MAX
}

pub proof fn lemma_weigh_ends(links: Seq<(Link, usize)>, d: char, n: int)
    ensures
        0 <= ends_total(links, d, n),
        n > 0 ==> ends_total(links, d, n - 1) <= ends_total(links, d, n),
    decreases n,
{
    if n > 0 {
        lemma_weigh_ends(links, d, n - 1);
        let c = links[n - 1].1 as int;
        let e = ends(links[n - 1].0, d);
        assert(c * e >= 0) by (nonlinear_arith)
            requires
                c >= 0,
                e >= 0,
        ;
    }
}

/// The counts of the elements are the counts of the ends of the links;
/// they can be made just when they stay in the range of `usize`.
pub proof fn lemma_ends_counted(links: Seq<(Link, usize)>, n: int)
    requires
        tidy(links),
        0 <= n <= links.len(),
    ensures
        ends_counted(links, n) is Some <==> ends_fit(links, n),
        ends_counted(links, n) matches Some(refs) ==> tidy_chars(refs) && forall|d: char|
            char_count(refs, d, 0) == #[trigger] ends_total(links, d, n),
    decreases n,
{
    if n > 0 {
        lemma_ends_counted(links, n - 1);
        let entry = links[n - 1];
        let v = entry.1;
        assert(v >= 1);
        match ends_counted(links, n - 1) {
            Some(refs) => {
                let first = match entry.0.0 {
                    Some(c) => inc_char_spec(refs, c, v),
                    None => Some(refs),
                };
                match entry.0.0 {
                    Some(c) => {
                        lemma_inc_char(refs, c, v, c);
                    },
                    None => {},
                }
                match first {
                    Some(mid) => {
                        let last = match entry.0.1 {
                            Some(c) => inc_char_spec(mid, c, v),
                            None => Some(mid),
                        };
                        match entry.0.1 {
                            Some(c) => {
                                lemma_inc_char(mid, c, v, c);
                            },
                            None => {},
                        }
                        assert forall|d: char|
                            last matches Some(out) ==> char_count(out, d, 0) == #[trigger] ends_total(
                                links,
                                d,
                                n,
                            ) by {
                            if last is Some {
                                let out = last.unwrap();
                                let r = char_count(refs, d, 0);
                                let m = char_count(mid, d, 0);
                                let o = char_count(out, d, 0);
                                let x: int = if entry.0.0 == Some(d) {
                                    v as int
                                } else {
                                    0
                                };
                                let y: int = if entry.0.1 == Some(d) {
                                    v as int
                                } else {
                                    0
                                };
                                assert(r == ends_total(links, d, n - 1));
                                assert(ends_total(links, d, n) == ends_total(links, d, n - 1) + v
                                    * ends(entry.0, d));
                                match entry.0.0 {
                                    Some(c) => {
                                        lemma_inc_char(refs, c, v, d);
                                        assert(first == inc_char_spec(refs, c, v));
                                    },
                                    None => {
                                        assert(mid == refs);
                                    },
                                }
                                assert(m == r + x);
                                match entry.0.1 {
                                    Some(c) => {
                                        lemma_inc_char(mid, c, v, d);
                                        assert(last == inc_char_spec(mid, c, v));
                                    },
                                    None => {
                                        assert(out == mid);
                                    },
                                }
                                assert(o == m + y);
                                let e = ends(entry.0, d);
                                assert(v * e == x + y) by (nonlinear_arith)
                                    requires
                                        e == (if x == 0 {
                                            0int
                                        } else {
                                            1int
                                        }) + (if y == 0 {
                                            0int
                                        } else {
                                            1int
                                        }),
                                        x == 0 || x == v,
                                        y == 0 || y == v,
                                ;
                            }
                        }
                        if last is None {
                            let c = entry.0.1.unwrap();
                            assert(char_count(refs, c, 0) == ends_total(links, c, n - 1));
                            assert(ends_total(links, c, n) == ends_total(links, c, n - 1) + v
                                * ends(entry.0, c));
                            lemma_inc_char(mid, c, v, c);
                            match entry.0.0 {
                                Some(c0) => {
                                    lemma_inc_char(refs, c0, v, c);
                                },
                                None => {},
                            }
                            let e = ends(entry.0, c);
                            assert(v * e >= v + (if entry.0.0 == Some(c) {
                                v as int
                            } else {
                                0
                            })) by (nonlinear_arith)
                                requires
                                    e == (if entry.0.0 == Some(c) {
                                        1int
                                    } else {
                                        0int
                                    }) + 1,
                            ;
                            assert(ends_total(links, c, n) > usize::MAX);
                        } else {
                            assert forall|d: char| #[trigger]
                                ends_total(links, d, n) <= usize::MAX by {
                                assert(char_count(last.unwrap(), d, 0) == ends_total(links, d, n));
                                lemma_find_char(last.unwrap(), d, 0);
                            }
                        }
                    },
                    None => {
                        let c = entry.0.0.unwrap();
                        assert(char_count(refs, c, 0) == ends_total(links, c, n - 1));
                        assert(ends_total(links, c, n) == ends_total(links, c, n - 1) + v * ends(
                            entry.0,
                            c,
                        ));
                        let e = ends(entry.0, c);
                        assert(v * e >= v) by (nonlinear_arith)
                            requires
                                e >= 1,
                        ;
                        assert(ends_total(links, c, n) > usize::MAX);
                    },
                }
            },
            None => {
                let d = choose|d: char| #[trigger]
                    ends_total(links, d, n - 1) > usize::MAX;
                lemma_weigh_ends(links, d, n);
                assert(ends_total(links, d, n) > usize::MAX);
            },
        }
    } else {
        assert forall|d: char| char_count(Seq::<(char, usize)>::empty(), d, 0) == #[trigger] ends_total(links, d, n) by {}
    }
}

/// The least and the greatest count stand in the list, and every count
/// lies between them.
pub proof fn lemma_extremes_bounds(refs: Seq<(char, usize)>, n: int) -> (at: (int, int))
    requires
        0 < n <= refs.len(),
    ensures
        extremes(refs, n) is Some,
        0 <= at.0 < n,
        0 <= at.1 < n,
        refs[at.0].1 == extremes(refs, n).unwrap().0,
        refs[at.1].1 == extremes(refs, n).unwrap().1,
        forall|k: int|
            0 <= k < n ==> extremes(refs, n).unwrap().0 <= (#[trigger] refs[k]).1 <= extremes(
                refs,
                n,
            ).unwrap().1,
    decreases n,
{
    if n == 1 {
        assert(extremes(refs, 0) is None);
        (0, 0)
    } else {
        let before = lemma_extremes_bounds(refs, n - 1);
        let (lo, hi) = extremes(refs, n - 1).unwrap();
        let v = refs[n - 1].1;
        (
            if lo < v {
                before.0
            } else {
                n - 1
            },
            if hi > v {
                before.1
            } else {
                n - 1
            },
        )
    }
}

/// An element that is counted stands in the chain.
pub proof fn lemma_occurs_somewhere(s: Seq<char>, c: char, n: int) -> (i: int)
    requires
        0 <= n <= s.len(),
        occurrences(s, c, n) >= 1,
    ensures
        0 <= i < n,
        s[i] == c,
    decreases n,
{
    if s[n - 1] == c {
        n - 1
    } else {
        lemma_occurs_somewhere(s, c, n - 1)
    }
}

pub proof fn lemma_stands_counted(s: Seq<char>, i: int, n: int)
    requires
        0 <= i < n <= s.len(),
    ensures
        occurrences(s, s[i], n) >= 1,
    decreases n,
{
    lemma_occurrences(s, s[i], n - 1);
    if i < n - 1 {
        lemma_stands_counted(s, i, n - 1);
    }
}

/// How often the element `c` stands in the chain.
pub open spec fn times(s: Seq<char>, c: char) -> int {
    occurrences(s, c, s.len() as int)
}

/// Whether `v` is the spread of the chain: how much more often its most
/// common element stands in it than its least common one.
pub open spec fn spread_is(s: Seq<char>, v: int) -> bool {
    exists|a: int, b: int|
        0 <= a < s.len() && 0 <= b < s.len() && v == #[trigger] times(s, s[a]) - #[trigger] times(
            s,
            s[b],
        ) && forall|i: int|
            0 <= i < s.len() ==> times(s, s[b]) <= #[trigger] times(s, s[i]) <= times(s, s[a])
}

/// Whether some element stands in the chain too often for twice its
/// number to be counted in `usize`.
pub open spec fn too_many(s: Seq<char>) -> bool {
    exists|i: int| 0 <= i < s.len() && 2 * #[trigger] times(s, s[i]) > usize::MAX
}

/// The counts of the ends of the links of a chain are twice the numbers
/// of its elements.
pub proof fn lemma_ends_of_chain(map: Seq<(Link, usize)>, s: Seq<char>, d: char)
    requires
        s.len() >= 1,
        describes(map, s),
    ensures
        ends_total(map, d, map.len() as int) == 2 * times(s, d),
{
    lemma_ends_total(map, d, map.len() as int);
    lemma_regroup(map, links_of(s), |k: Link| ends(k, d));
    lemma_two_ends(s, d);
}

/// The score of the counted links of a chain is the spread of the
/// chain; there is none just when some element stands in the chain too
/// often to be counted.
pub proof fn lemma_score(map: Seq<(Link, usize)>, s: Seq<char>)
    requires
        s.len() >= 1,
        describes(map, s),
    ensures
        match score_spec(map) {
            Some(v) => spread_is(s, v as int) && !too_many(s),
            None => too_many(s),
        },
{
    let n = map.len() as int;
    lemma_ends_counted(map, n);
    match ends_counted(map, n) {
        Some(refs) => {
            assert forall|d: char| char_count(refs, d, 0) == 2 * #[trigger] times(s, d) by {
                lemma_ends_of_chain(map, s, d);
                assert(char_count(refs, d, 0) == ends_total(map, d, n));
            }
            assert forall|i: int| 0 <= i < s.len() implies 2 * #[trigger] times(s, s[i])
                <= usize::MAX by {
                lemma_find_char(refs, s[i], 0);
                assert(char_count(refs, s[i], 0) == 2 * times(s, s[i]));
            }
            lemma_stands_counted(s, 0, s.len() as int);
            lemma_find_char(refs, s[0], 0);
            assert(char_count(refs, s[0], 0) == 2 * times(s, s[0]));
            assert(refs.len() > 0);
            let at = lemma_extremes_bounds(refs, refs.len() as int);
            let (lo, hi) = extremes(refs, refs.len() as int).unwrap();
            let cl = refs[at.0].0;
            let ch = refs[at.1].0;
            lemma_find_char(refs, cl, 0);
            lemma_find_char(refs, ch, 0);
            assert(find_char(refs, cl, 0) == at.0) by {
                if find_char(refs, cl, 0) < at.0 {
                    assert(refs[find_char(refs, cl, 0)].0 != refs[at.0].0);
                }
            }
            assert(find_char(refs, ch, 0) == at.1) by {
                if find_char(refs, ch, 0) < at.1 {
                    assert(refs[find_char(refs, ch, 0)].0 != refs[at.1].0);
                }
            }
            assert(char_count(refs, cl, 0) == 2 * times(s, cl));
            assert(char_count(refs, ch, 0) == 2 * times(s, ch));
            assert(lo == 2 * times(s, cl) && hi == 2 * times(s, ch));
            assert(refs[at.0].1 >= 1 && refs[at.1].1 >= 1);
            let b = lemma_occurs_somewhere(s, cl, s.len() as int);
            let a = lemma_occurs_somewhere(s, ch, s.len() as int);
            let v = score_spec(map).unwrap();
            assert(v == (hi - lo) / 2);
            assert(v == times(s, s[a]) - times(s, s[b]));
            assert forall|i: int| 0 <= i < s.len() implies times(s, s[b]) <= #[trigger] times(
                s,
                s[i],
            ) <= times(s, s[a]) by {
                lemma_stands_counted(s, i, s.len() as int);
                lemma_find_char(refs, s[i], 0);
                assert(char_count(refs, s[i], 0) == 2 * times(s, s[i]));
                let j = find_char(refs, s[i], 0);
                assert(lo <= refs[j].1 <= hi);
            }
        },
        None => {
            let d = choose|d: char| #[trigger] ends_total(map, d, n) > usize::MAX;
            lemma_ends_of_chain(map, s, d);
            let i = lemma_occurs_somewhere(s, d, s.len() as int);
            assert(2 * times(s, s[i]) > usize::MAX);
        },
    }
}

/// The score of counted links is the spread of every chain whose links
/// they count.
pub proof fn lemma_score_of_any(map: Seq<(Link, usize)>)
    ensures
        forall|s: Seq<char>|
            s.len() >= 1 && #[trigger] describes(map, s) ==> (match score_spec(map) {
                Some(v) => spread_is(s, v as int),
                None => too_many(s),
            }),
{
    assert forall|s: Seq<char>| s.len() >= 1 && #[trigger] describes(map, s) implies (
    match score_spec(map) {
        Some(v) => spread_is(s, v as int),
        None => too_many(s),
    }) by {
        lemma_score(map, s);
    }
}

} // verus!
