use crate::growth::{
    describes, grow, lemma_grown_describes, lemma_init_describes, lemma_score_of_any, spread_is,
    too_many,
};
use crate::text;
use vstd::prelude::*;

verus! {

/// A place between two elements of the chain, or before the first or
/// after the last one.
pub type Link = (Option<char>, Option<char>);

/// The first index from `i` on where the link `k` stands in the list, or
/// the length of the list.
pub open spec fn find_link(map: Seq<(Link, usize)>, k: Link, i: int) -> int
    decreases map.len() - i,
{
    if i < 0 || i >= map.len() {
        map.len() as int
    } else if map[i].0 == k {
        i
    } else {
        find_link(map, k, i + 1)
    }
}

/// How often the link `k` is counted in the list.
pub open spec fn link_count(map: Seq<(Link, usize)>, k: Link) -> int {
    let i = find_link(map, k, 0);
    if i < map.len() {
        map[i].1 as int
    } else {
        0
    }
}

/// The list after the link `k` has been counted `v` times more.
pub open spec fn inc_spec(map: Seq<(Link, usize)>, k: Link, v: usize) -> Seq<(Link, usize)> {
    let i = find_link(map, k, 0);
    if i < map.len() {
        map.update(i, (map[i].0, (map[i].1 + v) as usize))
    } else {
        map.push((k, v))
    }
}

/// The list after the count of the link `k` has been set to `v`.
pub open spec fn set_spec(map: Seq<(Link, usize)>, k: Link, v: usize) -> Seq<(Link, usize)> {
    let i = find_link(map, k, 0);
    if i < map.len() {
        map.update(i, (map[i].0, v))
    } else {
        map.push((k, v))
    }
}

pub proof fn lemma_find_link(map: Seq<(Link, usize)>, k: Link, i: int)
    requires
        0 <= i <= map.len(),
    ensures
        i <= find_link(map, k, i) <= map.len(),
        find_link(map, k, i) < map.len() ==> map[find_link(map, k, i)].0 == k,
        forall|j: int| i <= j < find_link(map, k, i) ==> map[j].0 != k,
    decreases map.len() - i,
{
    if i < map.len() && map[i].0 != k {
        lemma_find_link(map, k, i + 1);
    }
}

pub proof fn lemma_find_same(a: Seq<(Link, usize)>, b: Seq<(Link, usize)>, k: Link, i: int)
    requires
        0 <= i <= a.len(),
        a.len() <= b.len(),
        forall|j: int| 0 <= j < a.len() ==> a[j].0 == b[j].0,
    ensures
        find_link(a, k, i) < a.len() ==> find_link(b, k, i) == find_link(a, k, i),
        find_link(a, k, i) == a.len() ==> find_link(b, k, i) == find_link(b, k, a.len() as int),
    decreases a.len() - i,
{
    if i < a.len() {
        assert(a[i].0 == b[i].0);
        if a[i].0 != k {
            lemma_find_same(a, b, k, i + 1);
        }
    }
}

/// Counting a link `v` times more raises its count by `v` and leaves the
/// other counts alone.
pub proof fn lemma_inc(map: Seq<(Link, usize)>, k: Link, v: usize, other: Link)
    requires
        link_count(map, k) + v <= usize::MAX,
    ensures
        link_count(inc_spec(map, k, v), other) == link_count(map, other) + (if other == k {
            v as int
        } else {
            0
        }),
{
    let out = inc_spec(map, k, v);
    lemma_find_link(map, k, 0);
    lemma_find_link(map, other, 0);
    lemma_find_same(map, out, other, 0);
    lemma_find_link(out, other, 0);
    if find_link(map, k, 0) == map.len() {
        lemma_find_link(out, other, map.len() as int);
    }
}

fn same_link(a: Link, b: Link) -> (r: bool)
    ensures
        r == (a == b),
{
    let first = match (a.0, b.0) {
        (Some(x), Some(y)) => x == y,
        (None, None) => true,
        _ => false,
    };
    let second = match (a.1, b.1) {
        (Some(x), Some(y)) => x == y,
        (None, None) => true,
        _ => false,
    };
    first && second
}

/// Counts the link `k` `v` times more.
pub fn inc_by(map: &mut Vec<(Link, usize)>, k: Link, v: usize)
    requires
        link_count(old(map)@, k) + v <= usize::MAX,
    ensures
        final(map)@ == inc_spec(old(map)@, k, v),
        forall|other: Link|
            link_count(final(map)@, other) == link_count(old(map)@, other) + (if other == k {
                v as int
            } else {
                0
            }),
{
    let mut i: usize = 0;
    while i < map.len()
        invariant
            i <= map.len(),
            *map == *old(map),
            find_link(map@, k, 0) == find_link(map@, k, i as int),
            link_count(map@, k) + v <= usize::MAX,
        decreases map.len() - i,
    {
        if same_link(map[i].0, k) {
            let entry = map[i];
            proof {
                assert forall|other: Link|
                    link_count(inc_spec(map@, k, v), other) == link_count(map@, other) + (if other
                        == k {
                        v as int
                    } else {
                        0
                    }) by {
                    lemma_inc(map@, k, v, other);
                }
            }
            let ghost before = map@;
            map.set(i, (entry.0, entry.1 + v));
            assert(map@ == inc_spec(before, k, v));
            return ;
        }
        i = i + 1;
    }
    proof {
        assert forall|other: Link|
            link_count(inc_spec(map@, k, v), other) == link_count(map@, other) + (if other == k {
                v as int
            } else {
                0
            }) by {
            lemma_inc(map@, k, v, other);
        }
    }
    let ghost before = map@;
    map.push((k, v));
    assert(map@ == inc_spec(before, k, v));
}

fn set_link(map: &mut Vec<(Link, usize)>, k: Link, v: usize)
    ensures
        final(map)@ == set_spec(old(map)@, k, v),
{
    let mut i: usize = 0;
    while i < map.len()
        invariant
            i <= map.len(),
            *map == *old(map),
            find_link(map@, k, 0) == find_link(map@, k, i as int),
        decreases map.len() - i,
    {
        if same_link(map[i].0, k) {
            let entry = map[i];
            map.set(i, (entry.0, v));
            return ;
        }
        i = i + 1;
    }
    map.push((k, v));
}

/// A chain of elements, kept as the number of times that each pair of
/// neighbours occurs in it.
pub struct Chain {
    pub links: Vec<(Link, usize)>,
}

/// The links of a chain when the pairs of neighbours up to the `n`-th
/// element have been counted.
pub open spec fn counted(chain: Seq<char>, n: int) -> Seq<(Link, usize)>
    decreases n,
{
    if n <= 0 {
        seq![((None::<char>, Some(chain[0])), 1usize)]
    } else {
        inc_spec(counted(chain, n - 1), (Some(chain[n - 1]), Some(chain[n])), 1)
    }
}

/// The links of a chain: the place before the first element once, each
/// pair of neighbours as often as it occurs, the place after the last
/// element once.
pub open spec fn init_spec(chain: Seq<char>) -> Seq<(Link, usize)> {
    if chain.len() == 0 {
        seq![]
    } else {
        set_spec(counted(chain, chain.len() - 1), (Some(chain.last()), None::<char>), 1)
    }
}

pub proof fn lemma_counted(chain: Seq<char>, n: int)
    requires
        0 <= n < chain.len(),
    ensures
        counted(chain, n).len() <= n + 1,
        forall|i: int| 0 <= i < counted(chain, n).len() ==> (#[trigger] counted(chain, n)[i]).1 <= n
            + 1,
    decreases n,
{
    if n > 0 {
        lemma_counted(chain, n - 1);
        let before = counted(chain, n - 1);
        let k = (Some(chain[n - 1]), Some(chain[n]));
        lemma_find_link(before, k, 0);
        let after = counted(chain, n);
        assert forall|i: int| 0 <= i < after.len() implies (#[trigger] after[i]).1 <= n + 1 by {
            if i < before.len() {
                assert(before[i].1 <= n);
            }
        }
    }
}

/// The element that the rules put between `a` and `b`: the last rule for
/// the pair decides.
pub open spec fn rule_for(rules: Seq<((char, char), char)>, a: char, b: char) -> Option<char>
    decreases rules.len(),
{
    if rules.len() == 0 {
        None
    } else if rules.last().0 == (a, b) {
        Some(rules.last().1)
    } else {
        rule_for(rules.drop_last(), a, b)
    }
}

fn lookup(rules: &Vec<((char, char), char)>, a: char, b: char) -> (r: Option<char>)
    ensures
        r == rule_for(rules@, a, b),
{
    let mut n: usize = rules.len();
    assert(rules@.subrange(0, n as int) =~= rules@);
    while n > 0
        invariant
            n <= rules.len(),
            rule_for(rules@, a, b) == rule_for(rules@.subrange(0, n as int), a, b),
        decreases n,
    {
        proof {
            assert(rules@.subrange(0, n as int).drop_last() =~= rules@.subrange(0, n - 1));
            assert(rules@.subrange(0, n as int).last() == rules@[n - 1]);
        }
        let rule = rules[n - 1];
        if rule.0.0 == a && rule.0.1 == b {
            return Some(rule.1);
        }
        n = n - 1;
    }
    proof {
        assert(rules@.subrange(0, 0) =~= seq![]);
    }
    assert(rules@.subrange(0, rules.len() as int) =~= rules@);
    None
}

/// The new list after the link at index `i` of the old list has been
/// carried over: a pair with a rule becomes two pairs around the new
/// element, counted as often as the pair was; other links keep their
/// count.
pub open spec fn step_link(
    new: Seq<(Link, usize)>,
    entry: (Link, usize),
    rules: Seq<((char, char), char)>,
) -> Seq<(Link, usize)> {
    match entry.0 {
        (Some(a), Some(b)) => match rule_for(rules, a, b) {
            Some(ins) => inc_spec(
                inc_spec(new, (Some(a), Some(ins)), entry.1),
                (Some(ins), Some(b)),
                entry.1,
            ),
            None => inc_spec(new, (Some(a), Some(b)), entry.1),
        },
        _ => set_spec(new, entry.0, entry.1),
    }
}

/// The links after one step of growth, when the first `n` links of the
/// old list have been carried over.
pub open spec fn grown(old: Seq<(Link, usize)>, rules: Seq<((char, char), char)>, n: int) -> Seq<
    (Link, usize),
>
    decreases n,
{
    if n <= 0 {
        seq![]
    } else {
        step_link(grown(old, rules, n - 1), old[n - 1], rules)
    }
}

/// Whether one step of growth can be counted in `usize`.
pub open spec fn can_grow(old: Seq<(Link, usize)>, rules: Seq<((char, char), char)>, n: int) -> bool
    decreases n,
{
    if n <= 0 {
        true
    } else {
        can_grow(old, rules, n - 1) && {
            let new = grown(old, rules, n - 1);
            let entry = old[n - 1];
            match entry.0 {
                (Some(a), Some(b)) => match rule_for(rules, a, b) {
                    Some(ins) => link_count(new, (Some(a), Some(ins))) + entry.1 <= usize::MAX
                        && link_count(
                        inc_spec(new, (Some(a), Some(ins)), entry.1),
                        (Some(ins), Some(b)),
                    ) + entry.1 <= usize::MAX,
                    None => link_count(new, (Some(a), Some(b))) + entry.1 <= usize::MAX,
                },
                _ => true,
            }
        }
    }
}

/// How often the element `c` is counted in the list.
pub open spec fn char_count(refs: Seq<(char, usize)>, c: char, i: int) -> int
    decreases refs.len() - i,
{
    if i < 0 || i >= refs.len() {
        0
    } else if refs[i].0 == c {
        refs[i].1 as int
    } else {
        char_count(refs, c, i + 1)
    }
}

/// The first index from `i` on where the element `c` stands in the list,
/// or the length of the list.
pub open spec fn find_char(refs: Seq<(char, usize)>, c: char, i: int) -> int
    decreases refs.len() - i,
{
    if i < 0 || i >= refs.len() {
        refs.len() as int
    } else if refs[i].0 == c {
        i
    } else {
        find_char(refs, c, i + 1)
    }
}

/// The list after the element `c` has been counted `v` times more;
/// `None` when the count leaves the range of `usize`.
pub open spec fn inc_char_spec(refs: Seq<(char, usize)>, c: char, v: usize) -> Option<
    Seq<(char, usize)>,
> {
    let i = find_char(refs, c, 0);
    if i < refs.len() {
        if refs[i].1 + v <= usize::MAX {
            Some(refs.update(i, (refs[i].0, (refs[i].1 + v) as usize)))
        } else {
            None
        }
    } else {
        Some(refs.push((c, v)))
    }
}

fn inc_char(refs: &mut Vec<(char, usize)>, c: char, v: usize) -> (ok: bool)
    ensures
        ok == inc_char_spec(old(refs)@, c, v).is_some(),
        ok ==> Some(final(refs)@) == inc_char_spec(old(refs)@, c, v),
        !ok ==> final(refs)@ == old(refs)@,
{
    let mut i: usize = 0;
    while i < refs.len()
        invariant
            i <= refs.len(),
            *refs == *old(refs),
            find_char(refs@, c, 0) == find_char(refs@, c, i as int),
        decreases refs.len() - i,
    {
        if refs[i].0 == c {
            let entry = refs[i];
            match entry.1.checked_add(v) {
                Some(total) => {
                    refs.set(i, (entry.0, total));
                    return true;
                },
                None => {
                    return false;
                },
            }
        }
        i = i + 1;
    }
    refs.push((c, v));
    true
}

/// The counts of the elements when the ends of the first `n` links have
/// been counted; `None` when a count leaves the range of `usize`.
pub open spec fn ends_counted(links: Seq<(Link, usize)>, n: int) -> Option<Seq<(char, usize)>>
    decreases n,
{
    if n <= 0 {
        Some(seq![])
    } else {
        match ends_counted(links, n - 1) {
            Some(refs) => {
                let entry = links[n - 1];
                let first = match entry.0.0 {
                    Some(c) => inc_char_spec(refs, c, entry.1),
                    None => Some(refs),
                };
                match first {
                    Some(mid) => match entry.0.1 {
                        Some(c) => inc_char_spec(mid, c, entry.1),
                        None => Some(mid),
                    },
                    None => None,
                }
            },
            None => None,
        }
    }
}

/// The least and the greatest count among the first `n` of the list.
pub open spec fn extremes(refs: Seq<(char, usize)>, n: int) -> Option<(usize, usize)>
    decreases n,
{
    if n <= 0 {
        None
    } else {
        let v = refs[n - 1].1;
        match extremes(refs, n - 1) {
            Some((lo, hi)) => Some(
                (
                    if lo < v {
                        lo
                    } else {
                        v
                    },
                    if hi > v {
                        hi
                    } else {
                        v
                    },
                ),
            ),
            None => Some((v, v)),
        }
    }
}

/// The score of a chain: each element is counted at both ends of every
/// link; half the difference of the greatest and the least count.
pub open spec fn score_spec(links: Seq<(Link, usize)>) -> Option<usize> {
    match ends_counted(links, links.len() as int) {
        Some(refs) => match extremes(refs, refs.len() as int) {
            Some((lo, hi)) => Some(((hi - lo) / 2) as usize),
            None => None,
        },
        None => None,
    }
}

pub proof fn lemma_ends_fail(links: Seq<(Link, usize)>, n: int, m: int)
    requires
        0 <= n <= m,
        ends_counted(links, n) is None,
    ensures
        ends_counted(links, m) is None,
    decreases m - n,
{
    if n < m {
        lemma_ends_fail(links, n, m - 1);
    }
}

pub proof fn lemma_extremes(refs: Seq<(char, usize)>, n: int)
    ensures
        extremes(refs, n) matches Some(e) ==> e.0 <= e.1,
    decreases n,
{
    if n > 0 {
        lemma_extremes(refs, n - 1);
    }
}

impl Chain {
    /// The chain of the elements `chain`.
    pub fn init(chain: &Vec<char>) -> (r: Chain)
        ensures
            r.links@ == init_spec(chain@),
            chain.len() > 0 ==> describes(r.links@, chain@),
    {
        proof {
            if chain.len() > 0 {
                lemma_init_describes(chain@);
            }
        }
        if chain.len() == 0 {
            Chain { links: Vec::new() }
        } else {
            let mut links: Vec<(Link, usize)> = Vec::new();
            links.push(((None, Some(chain[0])), 1));
            assert(links@ =~= counted(chain@, 0));
            let mut i: usize = 0;
            while i < chain.len() - 1
                invariant
                    i <= chain.len() - 1,
                    chain.len() > 0,
                    links@ == counted(chain@, i as int),
                decreases chain.len() - 1 - i,
            {
                proof {
                    lemma_counted(chain@, i as int);
                    let k = (Some(chain@[i as int]), Some(chain@[i + 1]));
                    lemma_find_link(links@, k, 0);
                }
                inc_by(&mut links, (Some(chain[i]), Some(chain[i + 1])), 1);
                i = i + 1;
            }
            set_link(&mut links, (Some(chain[chain.len() - 1]), None), 1);
            Chain { links }
        }
    }

    /// One step of growth: between the elements of every pair that has a
    /// rule the rule's element is put.
    pub fn apply_map(&mut self, rules: &Vec<((char, char), char)>)
        requires
            can_grow(old(self).links@, rules@, old(self).links.len() as int),
        ensures
            final(self).links@ == grown(old(self).links@, rules@, old(self).links.len() as int),
            forall|s: Seq<char>|
                s.len() >= 1 && #[trigger] describes(old(self).links@, s) ==> describes(
                    final(self).links@,
                    grow(s, rules@),
                ),
    {
        proof {
            assert forall|s: Seq<char>|
                s.len() >= 1 && #[trigger] describes(self.links@, s) implies describes(
                grown(self.links@, rules@, self.links.len() as int),
                grow(s, rules@),
            ) by {
                lemma_grown_describes(self.links@, rules@, s);
            }
        }
        let mut new: Vec<(Link, usize)> = Vec::new();
        let mut i: usize = 0;
        while i < self.links.len()
            invariant
                i <= self.links.len(),
                *self == *old(self),
                can_grow(self.links@, rules@, self.links.len() as int),
                new@ == grown(self.links@, rules@, i as int),
            decreases self.links.len() - i,
        {
            proof {
                lemma_can_grow(self.links@, rules@, i + 1, self.links.len() as int);
            }
            let (old_end, n) = self.links[i];
            match old_end {
                (Some(a), Some(b)) => {
                    match lookup(rules, a, b) {
                        Some(ins) => {
                            inc_by(&mut new, (Some(a), Some(ins)), n);
                            inc_by(&mut new, (Some(ins), Some(b)), n);
                        },
                        None => {
                            inc_by(&mut new, (Some(a), Some(b)), n);
                        },
                    }
                },
                _ => {
                    set_link(&mut new, old_end, n);
                },
            }
            i = i + 1;
        }
        self.links = new;
    }

    /// The score of the chain. `None` when the chain is empty or a count
    /// leaves the range of `usize`.
    pub fn get_chain_score(&self) -> (r: Option<usize>)
        ensures
            r == score_spec(self.links@),
            forall|s: Seq<char>|
                s.len() >= 1 && #[trigger] describes(self.links@, s) ==> (match r {
                    Some(v) => spread_is(s, v as int),
                    None => too_many(s),
                }),
    {
        let mut char_refs: Vec<(char, usize)> = Vec::new();
        let mut i: usize = 0;
        while i < self.links.len()
            invariant
                i <= self.links.len(),
                Some(char_refs@) == ends_counted(self.links@, i as int),
            decreases self.links.len() - i,
        {
            let (ent, n) = self.links[i];
            match ent.0 {
                Some(c) => {
                    if !inc_char(&mut char_refs, c, n) {
                        proof {
                            lemma_ends_fail(self.links@, i + 1, self.links.len() as int);
                            lemma_score_of_any(self.links@);
                        }
                        return None;
                    }
                },
                None => {},
            }
            match ent.1 {
                Some(c) => {
                    if !inc_char(&mut char_refs, c, n) {
                        proof {
                            lemma_ends_fail(self.links@, i + 1, self.links.len() as int);
                            lemma_score_of_any(self.links@);
                        }
                        return None;
                    }
                },
                None => {},
            }
            i = i + 1;
        }
        let mut bounds: Option<(usize, usize)> = None;
        let mut k: usize = 0;
        while k < char_refs.len()
            invariant
                k <= char_refs.len(),
                bounds == extremes(char_refs@, k as int),
            decreases char_refs.len() - k,
        {
            let v = char_refs[k].1;
            bounds = match bounds {
                Some((lo, hi)) => Some(
                    (
                        if lo < v {
                            lo
                        } else {
                            v
                        },
                        if hi > v {
                            hi
                        } else {
                            v
                        },
                    ),
                ),
                None => Some((v, v)),
            };
            k = k + 1;
        }
        proof {
            lemma_extremes(char_refs@, char_refs.len() as int);
            lemma_score_of_any(self.links@);
        }
        match bounds {
            Some((lo, hi)) => Some((hi - lo) / 2),
            None => None,
        }
    }
}

pub proof fn lemma_can_grow(old: Seq<(Link, usize)>, rules: Seq<((char, char), char)>, n: int, m: int)
    requires
        0 <= n <= m,
        can_grow(old, rules, m),
    ensures
        can_grow(old, rules, n),
    decreases m - n,
{
    if n < m {
        lemma_can_grow(old, rules, n, m - 1);
    }
}

/// How often `c` occurs among the first `n` elements.
pub open spec fn occurrences(chain: Seq<char>, c: char, n: int) -> int
    decreases n,
{
    if n <= 0 {
        0
    } else {
        occurrences(chain, c, n - 1) + (if chain[n - 1] == c {
            1int
        } else {
            0int
        })
    }
}

pub proof fn lemma_occurrences(chain: Seq<char>, c: char, n: int)
    ensures
        0 <= occurrences(chain, c, n),
        n >= 0 ==> occurrences(chain, c, n) <= n,
    decreases n,
{
    if n > 0 {
        lemma_occurrences(chain, c, n - 1);
    }
}

fn count_of(chain: &Vec<char>, c: char) -> (r: usize)
    ensures
        r == occurrences(chain@, c, chain.len() as int),
{
    let mut n: usize = 0;
    let mut i: usize = 0;
    while i < chain.len()
        invariant
            i <= chain.len(),
            n == occurrences(chain@, c, i as int),
            n <= i,
        decreases chain.len() - i,
    {
        if chain[i] == c {
            n = n + 1;
        }
        i = i + 1;
    }
    n
}

/// How often the most frequent element occurs. `None` for an empty chain
/// or a count beyond the range of `u32`.
pub fn get_char_max(chain: &Vec<char>) -> (r: Option<u32>)
    ensures
        r matches Some(v) ==> (exists|i: int|
            0 <= i < chain.len() && occurrences(chain@, #[trigger] chain[i], chain.len() as int)
                == v) && forall|i: int|
            0 <= i < chain.len() ==> occurrences(chain@, #[trigger] chain[i], chain.len() as int)
                <= v,
        r is None ==> chain.len() == 0 || chain.len() > u32::MAX,
{
    if chain.len() == 0 || chain.len() > 0xffff_ffff {
        return None;
    }
    let mut best: usize = count_of(chain, chain[0]);
    let mut i: usize = 1;
    proof {
        lemma_occurrences(chain@, chain@[0], chain.len() as int);
    }
    while i < chain.len()
        invariant
            1 <= i <= chain.len(),
            best <= chain.len(),
            exists|k: int|
                0 <= k < i && occurrences(chain@, #[trigger] chain[k], chain.len() as int) == best,
            forall|k: int|
                0 <= k < i ==> occurrences(chain@, #[trigger] chain[k], chain.len() as int) <= best,
        decreases chain.len() - i,
    {
        let n = count_of(chain, chain[i]);
        proof {
            lemma_occurrences(chain@, chain@[i as int], chain.len() as int);
        }
        if n > best {
            best = n;
        }
        i = i + 1;
    }
    Some(best as u32)
}

/// How often the least frequent element occurs. `None` for an empty
/// chain or a count beyond the range of `u32`.
pub fn get_char_min(chain: &Vec<char>) -> (r: Option<u32>)
    ensures
        r matches Some(v) ==> (exists|i: int|
            0 <= i < chain.len() && occurrences(chain@, #[trigger] chain[i], chain.len() as int)
                == v) && forall|i: int|
            0 <= i < chain.len() ==> occurrences(chain@, #[trigger] chain[i], chain.len() as int)
                >= v,
        r is None ==> chain.len() == 0 || chain.len() > u32::MAX,
{
    if chain.len() == 0 || chain.len() > 0xffff_ffff {
        return None;
    }
    let mut best: usize = count_of(chain, chain[0]);
    let mut i: usize = 1;
    proof {
        lemma_occurrences(chain@, chain@[0], chain.len() as int);
    }
    while i < chain.len()
        invariant
            1 <= i <= chain.len(),
            best <= chain.len(),
            exists|k: int|
                0 <= k < i && occurrences(chain@, #[trigger] chain[k], chain.len() as int) == best,
            forall|k: int|
                0 <= k < i ==> occurrences(chain@, #[trigger] chain[k], chain.len() as int) >= best,
        decreases chain.len() - i,
    {
        let n = count_of(chain, chain[i]);
        proof {
            lemma_occurrences(chain@, chain@[i as int], chain.len() as int);
        }
        if n < best {
            best = n;
        }
        i = i + 1;
    }
    Some(best as u32)
}

/// The rule that a line of the form `AB -> C` gives: the first two
/// characters before the arrow and the first character after it.
pub open spec fn rule_of(line: Seq<char>) -> Option<((char, char), char)> {
    match text::split_once_at_spec(line, seq![' ', '-', '>', ' ']) {
        Some((a, b)) => if a.len() >= 2 && b.len() >= 1 {
            Some(((a[0], a[1]), b[0]))
        } else {
            None
        },
        None => None,
    }
}

/// Reads the chain from the first line, without its last character, and
/// the rules from the lines after the second. `None` when there are fewer
/// than two lines, the first line is empty or a rule is malformed.
pub fn read_data(lines: &Vec<Vec<char>>) -> (r: Option<(Vec<char>, Vec<((char, char), char)>)>)
    ensures
        r matches Some(v) ==> {
            &&& lines.len() >= 2
            &&& lines[0].len() >= 1
            &&& v.0@ == lines[0]@.drop_last()
            &&& v.1.len() == lines.len() - 2
            &&& forall|i: int| 0 <= i < v.1.len() ==> Some(#[trigger] v.1[i]) == rule_of(lines[i + 2]@)
        },
        r is None ==> lines.len() < 2 || lines[0].len() == 0 || exists|i: int|
            2 <= i < lines.len() && rule_of(#[trigger] lines[i]@) is None,
{
    if lines.len() < 2 || lines[0].len() == 0 {
        return None;
    }
    let init_string = text::slice(&lines[0], 0, lines[0].len() - 1);
    let arrow: Vec<char> = vec![' ', '-', '>', ' '];
    assert(arrow@ =~= seq![' ', '-', '>', ' ']);
    let mut map: Vec<((char, char), char)> = Vec::new();
    let mut i: usize = 2;
    while i < lines.len()
        invariant
            2 <= i <= lines.len(),
            arrow@ == seq![' ', '-', '>', ' '],
            map.len() == i - 2,
            forall|k: int| 0 <= k < map.len() ==> Some(#[trigger] map[k]) == rule_of(lines[k + 2]@),
        decreases lines.len() - i,
    {
        let rule = match text::split_once_at(&lines[i], &arrow) {
            Some((a, b)) => {
                if a.len() >= 2 && b.len() >= 1 {
                    ((a[0], a[1]), b[0])
                } else {
                    return None;
                }
            },
            None => {
                return None;
            },
        };
        map.push(rule);
        i = i + 1;
    }
    Some((init_string, map))
}

} // verus!
