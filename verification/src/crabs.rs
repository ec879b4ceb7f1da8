use crate::order::{sort_i32, sorted_i32};
use crate::pattern;
use crate::text;
use vstd::prelude::*;

verus! {

/// The numbers that a list of texts stands for; `None` when one of them
/// is no `i32`.
pub open spec fn numbers_of(items: Seq<Seq<char>>) -> Option<Seq<i32>>
    decreases items.len(),
{
    if items.len() == 0 {
        Some(seq![])
    } else {
        match (numbers_of(items.drop_last()), text::i32_of(items.last())) {
            (Some(rest), Some(n)) => Some(rest.push(n)),
            _ => None,
        }
    }
}

pub proof fn lemma_numbers_fail(items: Seq<Seq<char>>, n: int)
    requires
        0 <= n <= items.len(),
        numbers_of(items.subrange(0, n)) is None,
    ensures
        numbers_of(items) is None,
    decreases items.len() - n,
{
    if n == items.len() {
        assert(items.subrange(0, n) =~= items);
    } else {
        assert(items.drop_last().subrange(0, n) =~= items.subrange(0, n));
        lemma_numbers_fail(items.drop_last(), n);
    }
}

/// Reads each text as an `i32`.
pub fn numbers_from(items: &Vec<Vec<char>>) -> (r: Option<Vec<i32>>)
    ensures
        (match r {
            Some(v) => Some(v@),
            None => None,
        }) == numbers_of(text::views(items@)),
{
    let ghost all = text::views(items@);
    let mut out: Vec<i32> = Vec::new();
    let mut i: usize = 0;
    while i < items.len()
        invariant
            i <= items.len(),
            all == text::views(items@),
            Some(out@) == numbers_of(all.subrange(0, i as int)),
        decreases items.len() - i,
    {
        proof {
            assert(all.subrange(0, i + 1).drop_last() =~= all.subrange(0, i as int));
            assert(all.subrange(0, i + 1).last() == items@[i as int]@);
        }
        match text::parse_i32(&items[i]) {
            Some(n) => {
                out.push(n);
            },
            None => {
                proof {
                    lemma_numbers_fail(all, i + 1);
                }
                return None;
            },
        }
        i = i + 1;
    }
    assert(all.subrange(0, i as int) =~= all);
    Some(out)
}

/// Reads the positions of the crabs: the runs of digits of the text.
pub fn read_data(input: &Vec<char>) -> (r: Option<Vec<i32>>)
    ensures
        (match r {
            Some(v) => Some(v@),
            None => None,
        }) == (match pattern::regex_matches("\\d+"@, input@) {
            Some(items) => numbers_of(items),
            None => None,
        }),
{
    match pattern::find_all("\\d+", input) {
        Some(items) => numbers_from(&items),
        None => None,
    }
}

pub open spec fn dist(a: int, b: int) -> int {
    if a >= b {
        a - b
    } else {
        b - a
    }
}

/// The fuel that it takes to bring every crab to `pos` when each step
/// costs one.
pub open spec fn linear_cost(data: Seq<i32>, pos: int) -> int
    decreases data.len(),
{
    if data.len() == 0 {
        0
    } else {
        linear_cost(data.drop_last(), pos) + dist(pos, data.last() as int)
    }
}

/// The number of crabs at `pos` or before it.
pub open spec fn crabs_upto(data: Seq<i32>, pos: int) -> int
    decreases data.len(),
{
    if data.len() == 0 {
        0
    } else {
        crabs_upto(data.drop_last(), pos) + (if data.last() <= pos {
            1int
        } else {
            0int
        })
    }
}

/// One place further on, the fuel rises by one for every crab left
/// behind and falls by one for every crab ahead.
pub proof fn lemma_linear_step(data: Seq<i32>, pos: int)
    ensures
        linear_cost(data, pos + 1) - linear_cost(data, pos) == 2 * crabs_upto(data, pos)
            - data.len(),
    decreases data.len(),
{
    if data.len() > 0 {
        lemma_linear_step(data.drop_last(), pos);
    }
}

pub proof fn lemma_crabs_upto_least(data: Seq<i32>, pos: int, k: int)
    requires
        0 <= k <= data.len(),
        forall|i: int| 0 <= i < k ==> #[trigger] data[i] <= pos,
    ensures
        crabs_upto(data, pos) >= k,
    decreases data.len(),
{
    if data.len() > 0 {
        let head = data.drop_last();
        if k == data.len() {
            assert(data[k - 1] <= pos);
            assert forall|i: int| 0 <= i < k - 1 implies #[trigger] head[i] <= pos by {
                assert(head[i] == data[i]);
            }
            lemma_crabs_upto_least(head, pos, k - 1);
        } else {
            assert forall|i: int| 0 <= i < k implies #[trigger] head[i] <= pos by {
                assert(head[i] == data[i]);
            }
            lemma_crabs_upto_least(head, pos, k);
        }
    }
}

pub proof fn lemma_crabs_upto_most(data: Seq<i32>, pos: int, k: int)
    requires
        0 <= k <= data.len(),
        forall|i: int| k <= i < data.len() ==> #[trigger] data[i] > pos,
    ensures
        crabs_upto(data, pos) <= k,
    decreases data.len(),
{
    if data.len() > k {
        let head = data.drop_last();
        assert(data[data.len() - 1] > pos);
        assert forall|i: int| k <= i < head.len() implies #[trigger] head[i] > pos by {
            assert(head[i] == data[i]);
        }
        lemma_crabs_upto_most(head, pos, k);
    } else {
        lemma_crabs_upto_all(data, pos);
    }
}

pub proof fn lemma_crabs_upto_all(data: Seq<i32>, pos: int)
    ensures
        0 <= crabs_upto(data, pos) <= data.len(),
    decreases data.len(),
{
    if data.len() > 0 {
        lemma_crabs_upto_all(data.drop_last(), pos);
    }
}

/// No place takes less fuel than the place of the middle crab.
pub proof fn lemma_middle_best(data: Seq<i32>, pos: int)
    requires
        data.len() > 0,
        sorted_i32(data),
    ensures
        linear_cost(data, data[data.len() as int / 2] as int) <= linear_cost(data, pos),
    decreases dist(pos, data[data.len() as int / 2] as int),
{
    let n = data.len() as int;
    let m = data[n / 2] as int;
    if pos > m {
        lemma_middle_best(data, pos - 1);
        lemma_linear_step(data, pos - 1);
        assert forall|i: int| 0 <= i < n / 2 + 1 implies #[trigger] data[i] <= pos - 1 by {
            assert(data[i] <= data[n / 2]);
        }
        lemma_crabs_upto_least(data, pos - 1, n / 2 + 1);
    } else if pos < m {
        lemma_middle_best(data, pos + 1);
        lemma_linear_step(data, pos);
        assert forall|i: int| n / 2 <= i < n implies #[trigger] data[i] > pos by {
            assert(data[n / 2] <= data[i]);
        }
        lemma_crabs_upto_most(data, pos, n / 2);
    }
}

/// The fuel that it takes to bring every crab to `pos` when the steps of
/// a crab cost one, two, three and so on.
pub open spec fn rising_cost(data: Seq<i32>, pos: int) -> int
    decreases data.len(),
{
    if data.len() == 0 {
        0
    } else {
        rising_cost(data.drop_last(), pos) + dist(pos, data.last() as int) * (dist(
            pos,
            data.last() as int,
        ) + 1) / 2
    }
}

pub proof fn lemma_linear_prefix(data: Seq<i32>, pos: int, n: int)
    requires
        0 <= n <= data.len(),
    ensures
        0 <= linear_cost(data.subrange(0, n), pos) <= linear_cost(data, pos),
    decreases data.len() - n,
{
    if n == data.len() {
        assert(data.subrange(0, n) =~= data);
        lemma_linear_nonneg(data, pos);
    } else {
        assert(data.drop_last().subrange(0, n) =~= data.subrange(0, n));
        lemma_linear_prefix(data.drop_last(), pos, n);
    }
}

pub proof fn lemma_linear_nonneg(data: Seq<i32>, pos: int)
    ensures
        0 <= linear_cost(data, pos),
    decreases data.len(),
{
    if data.len() > 0 {
        lemma_linear_nonneg(data.drop_last(), pos);
    }
}

pub proof fn lemma_tri_nonneg(d: int)
    requires
        d >= 0,
    ensures
        d * (d + 1) / 2 >= 0,
        d * (d + 1) >= 0,
{
    assert(d * (d + 1) >= 0) by (nonlinear_arith)
        requires
            d >= 0,
    ;
}

pub proof fn lemma_rising_nonneg(data: Seq<i32>, pos: int)
    ensures
        0 <= rising_cost(data, pos),
    decreases data.len(),
{
    if data.len() > 0 {
        lemma_rising_nonneg(data.drop_last(), pos);
        lemma_tri_nonneg(dist(pos, data.last() as int));
    }
}

pub proof fn lemma_rising_prefix(data: Seq<i32>, pos: int, n: int)
    requires
        0 <= n <= data.len(),
    ensures
        0 <= rising_cost(data.subrange(0, n), pos) <= rising_cost(data, pos),
    decreases data.len() - n,
{
    if n == data.len() {
        assert(data.subrange(0, n) =~= data);
        lemma_rising_nonneg(data, pos);
    } else {
        assert(data.drop_last().subrange(0, n) =~= data.subrange(0, n));
        lemma_rising_prefix(data.drop_last(), pos, n);
        lemma_tri_nonneg(dist(pos, data.last() as int));
    }
}

/// The fuel for bringing every crab to the place of the middle one, each
/// step costing one. `None` when there is no crab or the fuel leaves the
/// range of `i32`.
pub fn p1(data: &Vec<i32>) -> (r: Option<i32>)
    ensures
        r == (if data.len() > 0 && linear_cost(data@, data[data.len() as int / 2] as int)
            <= i32::MAX {
            Some(linear_cost(data@, data[data.len() as int / 2] as int) as i32)
        } else {
            None
        }),
        sorted_i32(data@) ==> forall|pos: int|
            r matches Some(v) ==> v <= #[trigger] linear_cost(data@, pos),
{
    proof {
        if sorted_i32(data@) && data.len() > 0 {
            assert forall|pos: int|
                linear_cost(data@, data@[data.len() as int / 2] as int) <= #[trigger] linear_cost(
                    data@,
                    pos,
                ) by {
                lemma_middle_best(data@, pos);
            }
        }
    }
    if data.len() == 0 {
        return None;
    }
    let pos: i32 = data[data.len() / 2];
    let mut sum: i64 = 0;
    let mut i: usize = 0;
    while i < data.len()
        invariant
            i <= data.len(),
            data.len() > 0,
            pos == data@[data.len() as int / 2],
            0 <= sum <= i32::MAX,
            sum == linear_cost(data@.subrange(0, i as int), pos as int),
        decreases data.len() - i,
    {
        proof {
            assert(data@.subrange(0, i + 1).drop_last() =~= data@.subrange(0, i as int));
            assert(data@.subrange(0, i + 1).last() == data@[i as int]);
            lemma_linear_prefix(data@, pos as int, i + 1);
        }
        let d: i64 = if pos >= data[i] {
            pos as i64 - data[i] as i64
        } else {
            data[i] as i64 - pos as i64
        };
        sum = sum + d;
        if sum > 2147483647 {
            return None;
        }
        i = i + 1;
    }
    assert(data@.subrange(0, i as int) =~= data@);
    Some(sum as i32)
}

/// The rising fuel for bringing every crab to `pos`, as far as it stays
/// in the range of `i32`.
pub fn rising_fuel(data: &Vec<i32>, pos: i32) -> (r: Option<i32>)
    ensures
        r == (if rising_cost(data@, pos as int) <= i32::MAX {
            Some(rising_cost(data@, pos as int) as i32)
        } else {
            None
        }),
{
    let mut sum: i64 = 0;
    let mut i: usize = 0;
    while i < data.len()
        invariant
            i <= data.len(),
            0 <= sum <= i32::MAX,
            sum == rising_cost(data@.subrange(0, i as int), pos as int),
        decreases data.len() - i,
    {
        proof {
            assert(data@.subrange(0, i + 1).drop_last() =~= data@.subrange(0, i as int));
            assert(data@.subrange(0, i + 1).last() == data@[i as int]);
            lemma_rising_prefix(data@, pos as int, i + 1);
            lemma_tri_nonneg(dist(pos as int, data@[i as int] as int));
        }
        let d: i64 = if pos >= data[i] {
            pos as i64 - data[i] as i64
        } else {
            data[i] as i64 - pos as i64
        };
        if d > 65536 {
            assert(d * (d + 1) / 2 > 2147483647) by (nonlinear_arith)
                requires
                    d > 65536,
            ;
            return None;
        }
        assert(0 <= d * (d + 1) <= 65536 * 65537) by (nonlinear_arith)
            requires
                0 <= d <= 65536,
        ;
        sum = sum + (d * (d + 1)) / 2;
        if sum > 2147483647 {
            return None;
        }
        i = i + 1;
    }
    assert(data@.subrange(0, i as int) =~= data@);
    Some(sum as i32)
}

/// The least rising fuel for bringing every crab to one place between the
/// first and the last of the list. `None` when there is no such place, or
/// when the fuel for one of them leaves the range of `i32`.
pub fn p2(data: &Vec<i32>) -> (r: Option<i32>)
    ensures
        r matches Some(v) ==> data.len() > 0 && (exists|p: int|
            data[0] <= p <= data[data.len() - 1] && #[trigger] rising_cost(data@, p) == v)
            && forall|p: int|
            data[0] <= p <= data[data.len() - 1] ==> v <= #[trigger] rising_cost(data@, p),
        r is None ==> data.len() == 0 || data[0] > data[data.len() - 1] || exists|p: int|
            data[0] <= p <= data[data.len() - 1] && #[trigger] rising_cost(data@, p) > i32::MAX,
{
    if data.len() == 0 {
        return None;
    }
    let first: i32 = data[0];
    let last: i32 = data[data.len() - 1];
    if first > last {
        return None;
    }
    let mut best: i32 = match rising_fuel(data, first) {
        Some(v) => v,
        None => {
            return None;
        },
    };
    proof {
        lemma_rising_nonneg(data@, first as int);
        assert(rising_cost(data@, first as int) == best);
    }
    let mut pos: i32 = first;
    while pos < last
        invariant
            first <= pos <= last,
            first == data[0],
            last == data[data.len() - 1],
            data.len() > 0,
            exists|p: int| first <= p <= pos && #[trigger] rising_cost(data@, p) == best,
            forall|p: int| first <= p <= pos ==> best <= #[trigger] rising_cost(data@, p),
        decreases last - pos,
    {
        pos = pos + 1;
        let ghost old_best = best;
        match rising_fuel(data, pos) {
            Some(v) => {
                proof {
                    lemma_rising_nonneg(data@, pos as int);
                    assert(rising_cost(data@, pos as int) == v);
                    let w = choose|p: int|
                        first <= p <= pos - 1 && #[trigger] rising_cost(data@, p) == old_best;
                    assert(rising_cost(data@, w) == old_best);
                }
                if v < best {
                    best = v;
                }
            },
            None => {
                return None;
            },
        }
    }
    Some(best)
}

/// Brings the positions into rising order, as the two searches expect
/// them.
pub fn arrange(data: &mut Vec<i32>)
    ensures
        sorted_i32(final(data)@),
        final(data)@.to_multiset() == old(data)@.to_multiset(),
        final(data)@.len() == old(data)@.len(),
{
    sort_i32(data);
}

} // verus!
