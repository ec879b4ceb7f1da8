use crate::alu::{
    answer_spec, as_regs, better, block_spec, collect_spec, digits_from, exec_spec, find_key,
    insert_spec, lemma_block_fails, lemma_reg_run, reg_run, run_block, run_input, run_spec,
    search_spec, set_reg, Ins,
};
use vstd::prelude::*;

verus! {

/// A state of the search: the registers, and the number read so far.
pub type State = ([i64; 4], u64);

/// Whether every digit of `d` is one of 1 to 9.
pub open spec fn digits_ok(d: Seq<int>) -> bool {
    forall|i: int| 0 <= i < d.len() ==> 1 <= #[trigger] d[i] <= 9
}

/// The number that the digits `d` write, the first being the most
/// significant.
pub open spec fn number_of(d: Seq<int>) -> int
    decreases d.len(),
{
    if d.len() == 0 {
        0
    } else {
        number_of(d.drop_last()) * 10 + d.last()
    }
}

/// The number of inputs among the first `k` instructions.
pub open spec fn inputs(ls: Seq<Ins>, k: int) -> int
    decreases k,
{
    if k <= 0 {
        0
    } else {
        inputs(ls, k - 1) + (if ls[k - 1] is Inp {
            1int
        } else {
            0int
        })
    }
}

/// The registers after the first `k` instructions when the inputs read
/// the digits `d` one after another, starting from registers that hold 0.
/// `None` when an instruction cannot be carried out or the digits run
/// out.
pub open spec fn trace(ls: Seq<Ins>, k: int, d: Seq<int>) -> Option<[i64; 4]>
    decreases k,
{
    if k <= 0 {
        Some([0i64, 0i64, 0i64, 0i64])
    } else {
        match trace(ls, k - 1, d) {
            None => None,
            Some(regs) => match ls[k - 1] {
                Ins::Inp(r) => if r < 4 && inputs(ls, k - 1) < d.len() {
                    Some(set_reg(regs, r, d[inputs(ls, k - 1)] as i64))
                } else {
                    None
                },
                Ins::Reg(ins) => match exec_spec(ins.t, regs@, ins.a, ins.b) {
                    Some(out) => Some(as_regs(out)),
                    None => None,
                },
            },
        }
    }
}

/// Whether `a` is better than `b`: greater when the greatest number is
/// looked for, less when the least is.
pub open spec fn beats(a: int, b: int, big: bool) -> bool {
    if big {
        a > b
    } else {
        a < b
    }
}

/// Whether `d` holds a digit for each input among the first `pos`
/// instructions, and no more.
pub open spec fn fit(ls: Seq<Ins>, pos: int, d: Seq<int>) -> bool {
    digits_ok(d) && d.len() == inputs(ls, pos)
}

/// Whether the digits `d` lead to the registers `regs` before instruction
/// `pos`.
pub open spec fn reaches(ls: Seq<Ins>, pos: int, d: Seq<int>, regs: [i64; 4]) -> bool {
    fit(ls, pos, d) && trace(ls, pos, d) == Some(regs)
}

/// Whether the program ends with 0 in the last register when it reads
/// the digits `d`, one for each of its inputs.
pub open spec fn accepted(ls: Seq<Ins>, d: Seq<int>) -> bool {
    fit(ls, ls.len() as int, d) && (trace(ls, ls.len() as int, d) matches Some(regs) && regs[3]
        == 0)
}

/// Whether no digits lead to the registers of `d` with a better number.
pub open spec fn best_for(ls: Seq<Ins>, pos: int, d: Seq<int>, big: bool) -> bool {
    forall|d2: Seq<int>|
        #[trigger] fit(ls, pos, d2) && trace(ls, pos, d2) == trace(ls, pos, d) ==> !beats(
            number_of(d2),
            number_of(d),
            big,
        )
}

/// Whether the search stops at instruction `p` on the digits `d`: the
/// instruction cannot be carried out on the registers that they lead to,
/// or it is an input and the best number that leads to those registers
/// cannot take another digit.
pub open spec fn halts_at(ls: Seq<Ins>, p: int, d: Seq<int>, big: bool) -> bool {
    &&& 0 <= p < ls.len()
    &&& fit(ls, p, d)
    &&& trace(ls, p, d) matches Some(regs) && (match ls[p] {
        Ins::Reg(ins) => exec_spec(ins.t, regs@, ins.a, ins.b) is None,
        Ins::Inp(r) => r >= 4 || (number_of(d) * 10 + 9 > u64::MAX && best_for(ls, p, d, big)),
    })
}

/// Whether the search stops at one of the instructions from `from` on
/// and before `to`.
pub open spec fn stuck_between(ls: Seq<Ins>, from: int, to: int, big: bool) -> bool {
    exists|p: int, d: Seq<int>| from <= p < to && #[trigger] halts_at(ls, p, d, big)
}

/// Whether the search stops before the end of the program.
pub open spec fn stuck(ls: Seq<Ins>, big: bool) -> bool {
    stuck_between(ls, 0, ls.len() as int, big)
}

pub proof fn lemma_inputs_nonneg(ls: Seq<Ins>, k: int)
    ensures
        0 <= inputs(ls, k),
    decreases k,
{
    if k > 0 {
        lemma_inputs_nonneg(ls, k - 1);
    }
}

/// The registers after `k` instructions depend only on the digits that
/// the inputs among them read.
pub proof fn lemma_trace_prefix(ls: Seq<Ins>, k: int, d: Seq<int>, d2: Seq<int>)
    requires
        inputs(ls, k) <= d.len() <= d2.len(),
        d2.subrange(0, d.len() as int) == d,
    ensures
        trace(ls, k, d2) == trace(ls, k, d),
    decreases k,
{
    if k > 0 {
        lemma_inputs_nonneg(ls, k - 1);
        lemma_trace_prefix(ls, k - 1, d, d2);
        if ls[k - 1] is Inp {
            assert(d2.subrange(0, d.len() as int)[inputs(ls, k - 1)] == d2[inputs(ls, k - 1)]);
        }
    }
}

/// A run of computing instructions reads no digit, and leaves the
/// registers that it is said to leave.
pub proof fn lemma_block_trace(ls: Seq<Ins>, pos: int, cut: int, d: Seq<int>, regs: [i64; 4])
    requires
        0 <= pos <= cut <= ls.len(),
        forall|k: int| pos <= k < cut ==> ls[k] is Reg,
        trace(ls, pos, d) == Some(regs),
    ensures
        trace(ls, cut, d) == block_spec(regs, ls.subrange(pos, cut)),
        inputs(ls, cut) == inputs(ls, pos),
    decreases cut - pos,
{
    let block = ls.subrange(pos, cut);
    if cut > pos {
        lemma_block_trace(ls, pos, cut - 1, d, regs);
        assert(block.drop_last() =~= ls.subrange(pos, cut - 1));
        assert(block.last() == ls[cut - 1]);
    }
}

pub proof fn lemma_find_key(h: Seq<State>, key: [i64; 4], i: int)
    requires
        0 <= i <= h.len(),
    ensures
        i <= find_key(h, key, i) <= h.len(),
        find_key(h, key, i) < h.len() ==> h[find_key(h, key, i)].0 == key,
        forall|j: int| i <= j < find_key(h, key, i) ==> (#[trigger] h[j]).0 != key,
    decreases h.len() - i,
{
    if i < h.len() && h[i].0 != key {
        lemma_find_key(h, key, i + 1);
    }
}

/// Whether the registers of `x` are kept in `h` with a number that is no
/// worse.
pub open spec fn kept(h: Seq<State>, x: State, big: bool) -> bool {
    exists|i: int| 0 <= i < h.len() && (#[trigger] h[i]).0 == x.0 && !better(x.1, h[i].1, big)
}

/// What is kept of a list of states: every state kept is one of the
/// list, every state of the list has its registers kept with a number
/// that is no worse, and no registers are kept twice.
pub proof fn lemma_collect(items: Seq<State>, big: bool)
    ensures
        forall|i: int|
            0 <= i < collect_spec(items, big).len() ==> items.contains(
                #[trigger] collect_spec(items, big)[i],
            ),
        forall|j: int|
            0 <= j < items.len() ==> kept(collect_spec(items, big), #[trigger] items[j], big),
        forall|a: int, b: int|
            0 <= a < collect_spec(items, big).len() && 0 <= b < collect_spec(items, big).len() && (
            #[trigger] collect_spec(items, big)[a]).0 == (#[trigger] collect_spec(items, big)[b]).0
                ==> a == b,
    decreases items.len(),
{
    if items.len() > 0 {
        let head = items.drop_last();
        let last = items.last();
        let h = collect_spec(head, big);
        let out = collect_spec(items, big);
        lemma_collect(head, big);
        lemma_find_key(h, last.0, 0);
        let at = find_key(h, last.0, 0);
        assert(out == insert_spec(h, last.0, last.1, big));
        assert forall|i: int| 0 <= i < out.len() implies items.contains(#[trigger] out[i]) by {
            if i < h.len() && out[i] == h[i] {
                assert(head.contains(h[i]));
                let j = choose|j: int| 0 <= j < head.len() && head[j] == h[i];
                assert(items[j] == out[i]);
            } else {
                assert(out[i] == last);
                assert(items[items.len() - 1] == out[i]);
            }
        }
        assert forall|j: int| 0 <= j < items.len() implies kept(out, #[trigger] items[j], big) by {
            if j < head.len() {
                assert(items[j] == head[j]);
                assert(kept(h, head[j], big));
                let i = choose|i: int|
                    0 <= i < h.len() && (#[trigger] h[i]).0 == head[j].0 && !better(
                        head[j].1,
                        h[i].1,
                        big,
                    );
                assert(out[i].0 == items[j].0 && !better(items[j].1, out[i].1, big));
            } else {
                assert(out[at].0 == items[j].0 && !better(items[j].1, out[at].1, big));
            }
        }
        assert forall|a: int, b: int|
            0 <= a < out.len() && 0 <= b < out.len() && (#[trigger] out[a]).0 == (
            #[trigger] out[b]).0 implies a == b by {
            if a < h.len() && b < h.len() {
                assert(h[a].0 == h[b].0);
            }
        }
    }
}

/// What a run of computing instructions makes of a list of states.
pub proof fn lemma_run_block(states: Seq<State>, block: Seq<Ins>)
    ensures
        match run_block(states, block) {
            Some(next) => next.len() == states.len() && forall|i: int|
                0 <= i < states.len() ==> block_spec(states[i].0, block) == Some(
                    (#[trigger] next[i]).0,
                ) && next[i].1 == states[i].1,
            None => exists|i: int|
                0 <= i < states.len() && block_spec((#[trigger] states[i]).0, block) is None,
        },
    decreases states.len(),
{
    if states.len() > 0 {
        let head = states.drop_last();
        lemma_run_block(head, block);
        match run_block(states, block) {
            Some(next) => {
                assert forall|i: int| 0 <= i < states.len() implies block_spec(
                    states[i].0,
                    block,
                ) == Some((#[trigger] next[i]).0) && next[i].1 == states[i].1 by {
                    if i < head.len() {
                        assert(states[i] == head[i]);
                    }
                }
            },
            None => {
                if run_block(head, block) is None {
                    let i = choose|i: int|
                        0 <= i < head.len() && block_spec((#[trigger] head[i]).0, block) is None;
                    assert(states[i] == head[i]);
                } else {
                    assert(block_spec(states[states.len() - 1].0, block) is None);
                }
            },
        }
    }
}

/// The state that follows `st` when the digit `dg` is read into
/// register `r`.
pub open spec fn fed(st: State, r: u8, dg: int) -> State {
    (set_reg(st.0, r, dg as i64), (st.1 * 10 + dg) as u64)
}

/// Whether `x` follows `st` by one of the digits from `d` to 9.
pub open spec fn follows(st: State, r: u8, d: int, x: State) -> bool {
    exists|dg: int| d <= dg <= 9 && x == #[trigger] fed(st, r, dg)
}

/// Whether `x` follows one of `states` by a digit.
pub open spec fn follows_one(states: Seq<State>, r: u8, x: State) -> bool {
    exists|i: int| 0 <= i < states.len() && follows(#[trigger] states[i], r, 1, x)
}

pub proof fn lemma_digits_from(st: State, r: u8, d: int)
    requires
        1 <= d <= 10,
    ensures
        match digits_from(st, r, d) {
            Some(more) => (d <= 9 ==> st.1 * 10 + 9 <= u64::MAX) && (forall|k: int|
                0 <= k < more.len() ==> follows(st, r, d, #[trigger] more[k])) && forall|dg: int|
                d <= dg <= 9 ==> more.contains(#[trigger] fed(st, r, dg)),
            None => st.1 * 10 + 9 > u64::MAX,
        },
    decreases 10 - d,
{
    if d <= 9 {
        lemma_digits_from(st, r, d + 1);
        match digits_from(st, r, d) {
            Some(more) => {
                let rest = digits_from(st, r, d + 1).unwrap();
                assert(more == seq![fed(st, r, d)] + rest);
                assert forall|k: int| 0 <= k < more.len() implies follows(
                    st,
                    r,
                    d,
                    #[trigger] more[k],
                ) by {
                    if k > 0 {
                        assert(more[k] == rest[k - 1]);
                        assert(follows(st, r, d + 1, rest[k - 1]));
                        let dg = choose|dg: int|
                            d + 1 <= dg <= 9 && rest[k - 1] == #[trigger] fed(st, r, dg);
                        assert(d <= dg <= 9 && more[k] == fed(st, r, dg));
                    } else {
                        assert(more[0] == fed(st, r, d));
                    }
                }
                assert forall|dg: int| d <= dg <= 9 implies more.contains(
                    #[trigger] fed(st, r, dg),
                ) by {
                    if dg == d {
                        assert(more[0] == fed(st, r, dg));
                    } else {
                        let k = choose|k: int| 0 <= k < rest.len() && rest[k] == fed(st, r, dg);
                        assert(more[k + 1] == fed(st, r, dg));
                    }
                }
            },
            None => {},
        }
    }
}

/// What reading a digit makes of a list of states.
pub proof fn lemma_run_input(states: Seq<State>, r: u8)
    ensures
        match run_input(states, r) {
            Some(next) => (forall|i: int|
                0 <= i < states.len() ==> (#[trigger] states[i]).1 * 10 + 9 <= u64::MAX) && (
            forall|k: int| 0 <= k < next.len() ==> follows_one(states, r, #[trigger] next[k]))
                && forall|i: int, dg: int|
                0 <= i < states.len() && 1 <= dg <= 9 ==> next.contains(
                    #[trigger] fed(states[i], r, dg),
                ),
            None => exists|i: int|
                0 <= i < states.len() && (#[trigger] states[i]).1 * 10 + 9 > u64::MAX,
        },
    decreases states.len(),
{
    if states.len() > 0 {
        let head = states.drop_last();
        let last = states.last();
        lemma_run_input(head, r);
        lemma_digits_from(last, r, 1);
        match run_input(states, r) {
            Some(next) => {
                let rest = run_input(head, r).unwrap();
                let more = digits_from(last, r, 1).unwrap();
                assert(next == rest + more);
                assert forall|i: int| 0 <= i < states.len() implies (#[trigger] states[i]).1 * 10
                    + 9 <= u64::MAX by {
                    if i < head.len() {
                        assert(states[i] == head[i]);
                    }
                }
                assert forall|k: int| 0 <= k < next.len() implies follows_one(
                    states,
                    r,
                    #[trigger] next[k],
                ) by {
                    if k < rest.len() {
                        assert(next[k] == rest[k]);
                        assert(follows_one(head, r, rest[k]));
                        let i = choose|i: int|
                            0 <= i < head.len() && follows(#[trigger] head[i], r, 1, rest[k]);
                        assert(states[i] == head[i]);
                    } else {
                        assert(next[k] == more[k - rest.len()]);
                        assert(follows(states[states.len() - 1], r, 1, next[k]));
                    }
                }
                assert forall|i: int, dg: int|
                    0 <= i < states.len() && 1 <= dg <= 9 implies next.contains(
                    #[trigger] fed(states[i], r, dg),
                ) by {
                    let x = fed(states[i], r, dg);
                    if i < head.len() {
                        assert(states[i] == head[i]);
                        assert(rest.contains(fed(head[i], r, dg)));
                        let k = choose|k: int| 0 <= k < rest.len() && rest[k] == x;
                        assert(next[k] == x);
                    } else {
                        assert(more.contains(fed(last, r, dg)));
                        let k = choose|k: int| 0 <= k < more.len() && more[k] == x;
                        assert(next[rest.len() + k] == x);
                    }
                }
            },
            None => {
                if run_input(head, r) is None {
                    let i = choose|i: int|
                        0 <= i < head.len() && (#[trigger] head[i]).1 * 10 + 9 > u64::MAX;
                    assert(states[i] == head[i]);
                } else {
                    assert(states[states.len() - 1].1 * 10 + 9 > u64::MAX);
                }
            },
        }
    }
}

/// What the answer says of the states at the end.
pub proof fn lemma_answer(states: Seq<State>, big: bool)
    ensures
        match answer_spec(states, big) {
            Some(n) => (exists|i: int|
                0 <= i < states.len() && (#[trigger] states[i]).0[3] == 0 && states[i].1 == n)
                && forall|j: int|
                0 <= j < states.len() && (#[trigger] states[j]).0[3] == 0 ==> !better(
                    states[j].1,
                    n,
                    big,
                ),
            None => forall|j: int| 0 <= j < states.len() ==> (#[trigger] states[j]).0[3] != 0,
        },
    decreases states.len(),
{
    if states.len() > 0 {
        let head = states.drop_last();
        lemma_answer(head, big);
        match answer_spec(states, big) {
            Some(n) => {
                if answer_spec(head, big) == Some(n) {
                    let i = choose|i: int|
                        0 <= i < head.len() && (#[trigger] head[i]).0[3] == 0 && head[i].1 == n;
                    assert(states[i] == head[i]);
                } else {
                    assert(states[states.len() - 1].1 == n);
                }
                assert forall|j: int|
                    0 <= j < states.len() && (#[trigger] states[j]).0[3] == 0 implies !better(
                    states[j].1,
                    n,
                    big,
                ) by {
                    if j < head.len() {
                        assert(states[j] == head[j]);
                    }
                }
            },
            None => {
                assert forall|j: int| 0 <= j < states.len() implies (#[trigger] states[j]).0[3]
                    != 0 by {
                    if j < head.len() {
                        assert(states[j] == head[j]);
                    }
                }
            },
        }
    }
}

/// Whether some digits lead to the registers of `st` and write its
/// number.
pub open spec fn told(ls: Seq<Ins>, pos: int, st: State) -> bool {
    exists|d: Seq<int>| #[trigger] reaches(ls, pos, d, st.0) && number_of(d) == st.1
}

/// Whether every state comes from some digits.
#[verifier::opaque]
pub open spec fn witnessed(states: Seq<State>, ls: Seq<Ins>, pos: int) -> bool {
    forall|i: int| 0 <= i < states.len() ==> told(ls, pos, #[trigger] states[i])
}

/// Whether some state has the registers that `d` leads to, with a number
/// that is no worse than that of `d`.
pub open spec fn held(states: Seq<State>, ls: Seq<Ins>, pos: int, d: Seq<int>, big: bool) -> bool {
    exists|i: int|
        0 <= i < states.len() && trace(ls, pos, d) == Some((#[trigger] states[i]).0) && !beats(
            number_of(d),
            states[i].1 as int,
            big,
        )
}

/// Whether the states stand for all digits.
#[verifier::opaque]
pub open spec fn covering(states: Seq<State>, ls: Seq<Ins>, pos: int, big: bool) -> bool {
    forall|d: Seq<int>| #[trigger] fit(ls, pos, d) ==> held(states, ls, pos, d, big)
}

/// Whether no digits lead to the registers of `st` with a better number.
pub open spec fn peak(ls: Seq<Ins>, pos: int, st: State, big: bool) -> bool {
    forall|d: Seq<int>| #[trigger]
        reaches(ls, pos, d, st.0) ==> !beats(number_of(d), st.1 as int, big)
}

/// Whether every state has the best number for its registers.
#[verifier::opaque]
pub open spec fn finest(states: Seq<State>, ls: Seq<Ins>, pos: int, big: bool) -> bool {
    forall|i: int| 0 <= i < states.len() ==> peak(ls, pos, #[trigger] states[i], big)
}

/// The digits that a state comes from.
pub proof fn lemma_told(states: Seq<State>, ls: Seq<Ins>, pos: int, i: int) -> (d: Seq<int>)
    requires
        witnessed(states, ls, pos),
        0 <= i < states.len(),
    ensures
        reaches(ls, pos, d, states[i].0),
        number_of(d) == states[i].1,
{
    reveal(witnessed);
    assert(told(ls, pos, states[i]));
    choose|d: Seq<int>| #[trigger] reaches(ls, pos, d, states[i].0) && number_of(d) == states[i].1
}

/// The state that stands for the digits `d`.
pub proof fn lemma_held(states: Seq<State>, ls: Seq<Ins>, pos: int, big: bool, d: Seq<int>) -> (i:
    int)
    requires
        covering(states, ls, pos, big),
        fit(ls, pos, d),
    ensures
        0 <= i < states.len(),
        trace(ls, pos, d) == Some(states[i].0),
        !beats(number_of(d), states[i].1 as int, big),
{
    reveal(covering);
    assert(held(states, ls, pos, d, big));
    choose|i: int|
        0 <= i < states.len() && trace(ls, pos, d) == Some((#[trigger] states[i]).0) && !beats(
            number_of(d),
            states[i].1 as int,
            big,
        )
}

pub proof fn lemma_peak(states: Seq<State>, ls: Seq<Ins>, pos: int, big: bool, i: int, d: Seq<int>)
    requires
        finest(states, ls, pos, big),
        0 <= i < states.len(),
        reaches(ls, pos, d, states[i].0),
    ensures
        !beats(number_of(d), states[i].1 as int, big),
{
    reveal(finest);
    assert(peak(ls, pos, states[i], big));
}

pub proof fn lemma_collect_witnessed(items: Seq<State>, ls: Seq<Ins>, pos: int, big: bool)
    requires
        witnessed(items, ls, pos),
    ensures
        witnessed(collect_spec(items, big), ls, pos),
{
    reveal(witnessed);
    let h = collect_spec(items, big);
    lemma_collect(items, big);
    assert forall|i: int| 0 <= i < h.len() implies told(ls, pos, #[trigger] h[i]) by {
        assert(items.contains(h[i]));
        let j = choose|j: int| 0 <= j < items.len() && items[j] == h[i];
        assert(told(ls, pos, items[j]));
    }
}

pub proof fn lemma_collect_covering(items: Seq<State>, ls: Seq<Ins>, pos: int, big: bool)
    requires
        covering(items, ls, pos, big),
    ensures
        covering(collect_spec(items, big), ls, pos, big),
{
    let h = collect_spec(items, big);
    lemma_collect(items, big);
    assert forall|d: Seq<int>| #[trigger] fit(ls, pos, d) implies held(h, ls, pos, d, big) by {
        let j = lemma_held(items, ls, pos, big, d);
        assert(kept(h, items[j], big));
        let i = choose|i: int|
            0 <= i < h.len() && (#[trigger] h[i]).0 == items[j].0 && !better(
                items[j].1,
                h[i].1,
                big,
            );
        assert(trace(ls, pos, d) == Some(h[i].0) && !beats(number_of(d), h[i].1 as int, big));
    }
    assert(covering(h, ls, pos, big)) by {
        reveal(covering);
    }
}

pub proof fn lemma_collect_finest(items: Seq<State>, ls: Seq<Ins>, pos: int, big: bool)
    requires
        covering(collect_spec(items, big), ls, pos, big),
    ensures
        finest(collect_spec(items, big), ls, pos, big),
{
    let h = collect_spec(items, big);
    lemma_collect(items, big);
    assert forall|i: int| 0 <= i < h.len() implies peak(ls, pos, #[trigger] h[i], big) by {
        assert forall|d: Seq<int>| #[trigger] reaches(ls, pos, d, h[i].0) implies !beats(
            number_of(d),
            h[i].1 as int,
            big,
        ) by {
            let k = lemma_held(h, ls, pos, big, d);
            assert(h[k].0 == h[i].0);
        }
    }
    assert(finest(h, ls, pos, big)) by {
        reveal(finest);
    }
}

/// Merging states with equal registers keeps the states in order, and
/// makes every number the best for its registers.
pub proof fn lemma_collect_keeps(items: Seq<State>, ls: Seq<Ins>, pos: int, big: bool)
    requires
        witnessed(items, ls, pos),
        covering(items, ls, pos, big),
    ensures
        witnessed(collect_spec(items, big), ls, pos),
        covering(collect_spec(items, big), ls, pos, big),
        finest(collect_spec(items, big), ls, pos, big),
{
    lemma_collect_witnessed(items, ls, pos, big);
    lemma_collect_covering(items, ls, pos, big);
    lemma_collect_finest(items, ls, pos, big);
}

/// Where a run of computing instructions cannot be carried out, one of
/// them is the first that cannot.
pub proof fn lemma_block_stops(ls: Seq<Ins>, pos: int, cut: int, d: Seq<int>, regs: [i64; 4]) -> (p:
    int)
    requires
        0 <= pos <= cut <= ls.len(),
        forall|k: int| pos <= k < cut ==> ls[k] is Reg,
        trace(ls, pos, d) == Some(regs),
        block_spec(regs, ls.subrange(pos, cut)) is None,
    ensures
        pos <= p < cut,
        trace(ls, p, d) is Some,
        trace(ls, p + 1, d) is None,
        inputs(ls, p) == inputs(ls, pos),
    decreases cut - pos,
{
    let block = ls.subrange(pos, cut);
    assert(cut > pos);
    assert(block.drop_last() =~= ls.subrange(pos, cut - 1));
    lemma_block_trace(ls, pos, cut - 1, d, regs);
    lemma_block_trace(ls, pos, cut, d, regs);
    if block_spec(regs, ls.subrange(pos, cut - 1)) is None {
        lemma_block_stops(ls, pos, cut - 1, d, regs)
    } else {
        cut - 1
    }
}

/// A run of computing instructions reads no digit.
pub proof fn lemma_same_inputs(ls: Seq<Ins>, pos: int, cut: int)
    requires
        0 <= pos <= cut <= ls.len(),
        forall|k: int| pos <= k < cut ==> ls[k] is Reg,
    ensures
        inputs(ls, cut) == inputs(ls, pos),
    decreases cut - pos,
{
    if cut > pos {
        lemma_same_inputs(ls, pos, cut - 1);
    }
}

pub proof fn lemma_block_witnessed(
    states: Seq<State>,
    ls: Seq<Ins>,
    pos: int,
    cut: int,
    next: Seq<State>,
)
    requires
        0 <= pos < cut <= ls.len(),
        forall|k: int| pos <= k < cut ==> ls[k] is Reg,
        witnessed(states, ls, pos),
        run_block(states, ls.subrange(pos, cut)) == Some(next),
    ensures
        witnessed(next, ls, cut),
{
    lemma_run_block(states, ls.subrange(pos, cut));
    assert forall|i: int| 0 <= i < next.len() implies told(ls, cut, #[trigger] next[i]) by {
        let d = lemma_told(states, ls, pos, i);
        lemma_block_trace(ls, pos, cut, d, states[i].0);
        assert(reaches(ls, cut, d, next[i].0));
    }
    assert(witnessed(next, ls, cut)) by {
        reveal(witnessed);
    }
}

pub proof fn lemma_block_covering(
    states: Seq<State>,
    ls: Seq<Ins>,
    pos: int,
    cut: int,
    next: Seq<State>,
    big: bool,
)
    requires
        0 <= pos < cut <= ls.len(),
        forall|k: int| pos <= k < cut ==> ls[k] is Reg,
        covering(states, ls, pos, big),
        run_block(states, ls.subrange(pos, cut)) == Some(next),
    ensures
        covering(next, ls, cut, big),
{
    lemma_run_block(states, ls.subrange(pos, cut));
    lemma_same_inputs(ls, pos, cut);
    assert forall|d: Seq<int>| #[trigger] fit(ls, cut, d) implies held(next, ls, cut, d, big) by {
        assert(fit(ls, pos, d));
        let i = lemma_held(states, ls, pos, big, d);
        lemma_block_trace(ls, pos, cut, d, states[i].0);
        assert(trace(ls, cut, d) == Some(next[i].0));
    }
    assert(covering(next, ls, cut, big)) by {
        reveal(covering);
    }
}

pub proof fn lemma_block_runs(
    states: Seq<State>,
    ls: Seq<Ins>,
    pos: int,
    cut: int,
    big: bool,
    p: int,
    d: Seq<int>,
)
    requires
        0 <= pos <= p < cut <= ls.len(),
        forall|k: int| pos <= k < cut ==> ls[k] is Reg,
        covering(states, ls, pos, big),
        run_block(states, ls.subrange(pos, cut)) is Some,
    ensures
        !halts_at(ls, p, d, big),
{
    let block = ls.subrange(pos, cut);
    lemma_run_block(states, block);
    lemma_same_inputs(ls, pos, p);
    if fit(ls, p, d) {
        assert(fit(ls, pos, d));
        let i = lemma_held(states, ls, pos, big, d);
        lemma_block_trace(ls, pos, p, d, states[i].0);
        lemma_block_trace(ls, pos, p + 1, d, states[i].0);
        assert(block.subrange(0, p + 1 - pos) =~= ls.subrange(pos, p + 1));
        let next = run_block(states, block).unwrap();
        assert(block_spec(states[i].0, block) == Some(next[i].0));
        if trace(ls, p + 1, d) is None {
            lemma_block_fails(states[i].0, block, p + 1 - pos);
        }
    }
}

pub proof fn lemma_block_halts(states: Seq<State>, ls: Seq<Ins>, pos: int, cut: int, big: bool)
    requires
        0 <= pos < cut <= ls.len(),
        forall|k: int| pos <= k < cut ==> ls[k] is Reg,
        witnessed(states, ls, pos),
        run_block(states, ls.subrange(pos, cut)) is None,
    ensures
        stuck_between(ls, pos, cut, big),
{
    let block = ls.subrange(pos, cut);
    lemma_run_block(states, block);
    let i = choose|i: int|
        0 <= i < states.len() && block_spec((#[trigger] states[i]).0, block) is None;
    let d = lemma_told(states, ls, pos, i);
    let p = lemma_block_stops(ls, pos, cut, d, states[i].0);
    assert(halts_at(ls, p, d, big));
}

/// What a run of computing instructions does to states in order: they
/// stay in order if it can be carried out on all of them, and the search
/// stops within the run if not.
pub proof fn lemma_block_step(states: Seq<State>, ls: Seq<Ins>, pos: int, cut: int, big: bool)
    requires
        0 <= pos < cut <= ls.len(),
        forall|k: int| pos <= k < cut ==> ls[k] is Reg,
        witnessed(states, ls, pos),
        covering(states, ls, pos, big),
    ensures
        match run_block(states, ls.subrange(pos, cut)) {
            Some(next) => witnessed(next, ls, cut) && covering(next, ls, cut, big)
                && !stuck_between(ls, pos, cut, big),
            None => stuck_between(ls, pos, cut, big),
        },
{
    match run_block(states, ls.subrange(pos, cut)) {
        Some(next) => {
            lemma_block_witnessed(states, ls, pos, cut, next);
            lemma_block_covering(states, ls, pos, cut, next, big);
            assert forall|p: int, d: Seq<int>| pos <= p < cut implies !#[trigger] halts_at(
                ls,
                p,
                d,
                big,
            ) by {
                lemma_block_runs(states, ls, pos, cut, big, p, d);
            }
        },
        None => {
            lemma_block_halts(states, ls, pos, cut, big);
        },
    }
}

pub proof fn lemma_number_grows(d: Seq<int>, e: Seq<int>, dg: int, big: bool)
    requires
        !beats(number_of(d), number_of(e), big),
    ensures
        !beats(number_of(d.push(dg)), number_of(e.push(dg)), big),
        number_of(d.push(dg)) == number_of(d) * 10 + dg,
        number_of(e.push(dg)) == number_of(e) * 10 + dg,
{
    assert(d.push(dg).drop_last() =~= d);
    assert(e.push(dg).drop_last() =~= e);
}

/// The registers after an input that reads the last of the digits.
pub proof fn lemma_input_trace(ls: Seq<Ins>, pos: int, r: u8, d: Seq<int>, dg: int, regs: [i64; 4])
    requires
        0 <= pos < ls.len(),
        ls[pos] == Ins::Inp(r),
        r < 4,
        1 <= dg <= 9,
        reaches(ls, pos, d, regs),
    ensures
        reaches(ls, pos + 1, d.push(dg), set_reg(regs, r, dg as i64)),
{
    let d2 = d.push(dg);
    assert(d2.subrange(0, d.len() as int) =~= d);
    lemma_trace_prefix(ls, pos, d, d2);
}

pub proof fn lemma_input_witnessed(
    states: Seq<State>,
    ls: Seq<Ins>,
    pos: int,
    r: u8,
    next: Seq<State>,
)
    requires
        0 <= pos < ls.len(),
        ls[pos] == Ins::Inp(r),
        r < 4,
        witnessed(states, ls, pos),
        run_input(states, r) == Some(next),
    ensures
        witnessed(next, ls, pos + 1),
{
    lemma_run_input(states, r);
    assert(run_input(states, r).unwrap() == next);
    assert forall|k: int| 0 <= k < next.len() implies told(ls, pos + 1, #[trigger] next[k]) by {
        assert(follows_one(states, r, run_input(states, r).unwrap()[k]));
        assert(follows_one(states, r, next[k]));
        let i = choose|i: int|
            0 <= i < states.len() && follows(#[trigger] states[i], r, 1, next[k]);
        let dg = choose|dg: int| 1 <= dg <= 9 && next[k] == #[trigger] fed(states[i], r, dg);
        let d = lemma_told(states, ls, pos, i);
        lemma_input_trace(ls, pos, r, d, dg, states[i].0);
        lemma_number_grows(d, d, dg, true);
        assert(states[i].1 * 10 + 9 <= u64::MAX);
        assert(reaches(ls, pos + 1, d.push(dg), next[k].0));
    }
    assert(witnessed(next, ls, pos + 1)) by {
        reveal(witnessed);
    }
}

pub proof fn lemma_input_covering(
    states: Seq<State>,
    ls: Seq<Ins>,
    pos: int,
    r: u8,
    next: Seq<State>,
    big: bool,
)
    requires
        0 <= pos < ls.len(),
        ls[pos] == Ins::Inp(r),
        r < 4,
        witnessed(states, ls, pos),
        covering(states, ls, pos, big),
        run_input(states, r) == Some(next),
    ensures
        covering(next, ls, pos + 1, big),
{
    lemma_run_input(states, r);
    lemma_inputs_nonneg(ls, pos);
    assert forall|d2: Seq<int>| #[trigger] fit(ls, pos + 1, d2) implies held(
        next,
        ls,
        pos + 1,
        d2,
        big,
    ) by {
        let d = d2.drop_last();
        let dg = d2.last();
        assert(d2 =~= d.push(dg));
        assert(1 <= d2[d2.len() - 1] <= 9);
        assert(fit(ls, pos, d)) by {
            assert forall|i: int| 0 <= i < d.len() implies 1 <= #[trigger] d[i] <= 9 by {
                assert(d[i] == d2[i]);
            }
        }
        let i = lemma_held(states, ls, pos, big, d);
        let e = lemma_told(states, ls, pos, i);
        lemma_input_trace(ls, pos, r, d, dg, states[i].0);
        lemma_number_grows(d, e, dg, big);
        assert(states[i].1 * 10 + 9 <= u64::MAX);
        let x = fed(states[i], r, dg);
        assert(next.contains(x));
        let k = choose|k: int| 0 <= k < next.len() && next[k] == x;
        assert(trace(ls, pos + 1, d2) == Some(next[k].0));
        assert(!beats(number_of(d2), next[k].1 as int, big));
    }
    assert(covering(next, ls, pos + 1, big)) by {
        reveal(covering);
    }
}

pub proof fn lemma_input_runs(
    states: Seq<State>,
    ls: Seq<Ins>,
    pos: int,
    r: u8,
    big: bool,
    d: Seq<int>,
)
    requires
        0 <= pos < ls.len(),
        ls[pos] == Ins::Inp(r),
        r < 4,
        witnessed(states, ls, pos),
        covering(states, ls, pos, big),
        run_input(states, r) is Some,
    ensures
        !halts_at(ls, pos, d, big),
{
    lemma_run_input(states, r);
    if halts_at(ls, pos, d, big) {
        let i = lemma_held(states, ls, pos, big, d);
        let e = lemma_told(states, ls, pos, i);
        assert(fit(ls, pos, e) && trace(ls, pos, e) == trace(ls, pos, d));
        assert(!beats(number_of(e), number_of(d), big));
        assert(states[i].1 * 10 + 9 <= u64::MAX);
    }
}

pub proof fn lemma_input_halts(states: Seq<State>, ls: Seq<Ins>, pos: int, r: u8, big: bool)
    requires
        0 <= pos < ls.len(),
        ls[pos] == Ins::Inp(r),
        witnessed(states, ls, pos),
        covering(states, ls, pos, big),
        finest(states, ls, pos, big),
        r >= 4 || run_input(states, r) is None,
    ensures
        stuck_between(ls, pos, pos + 1, big),
{
    lemma_inputs_nonneg(ls, pos);
    if r >= 4 {
        let d = Seq::new(inputs(ls, pos) as nat, |i: int| 1int);
        assert(fit(ls, pos, d));
        let i = lemma_held(states, ls, pos, big, d);
        assert(halts_at(ls, pos, d, big));
    } else {
        lemma_run_input(states, r);
        let i = choose|i: int|
            0 <= i < states.len() && (#[trigger] states[i]).1 * 10 + 9 > u64::MAX;
        let d = lemma_told(states, ls, pos, i);
        assert forall|d2: Seq<int>|
            #[trigger] fit(ls, pos, d2) && trace(ls, pos, d2) == trace(ls, pos, d) implies !beats(
            number_of(d2),
            number_of(d),
            big,
        ) by {
            assert(reaches(ls, pos, d2, states[i].0));
            lemma_peak(states, ls, pos, big, i, d2);
        }
        assert(halts_at(ls, pos, d, big));
    }
}

/// What an input does to states in order, each of which has the best
/// number for its registers: they stay in order if every number can take
/// another digit, and the search stops at the input if not.
pub proof fn lemma_input_step(states: Seq<State>, ls: Seq<Ins>, pos: int, r: u8, big: bool)
    requires
        0 <= pos < ls.len(),
        ls[pos] == Ins::Inp(r),
        witnessed(states, ls, pos),
        covering(states, ls, pos, big),
        finest(states, ls, pos, big),
    ensures
        r >= 4 ==> stuck_between(ls, pos, pos + 1, big),
        r < 4 ==> match run_input(states, r) {
            Some(next) => witnessed(next, ls, pos + 1) && covering(next, ls, pos + 1, big)
                && !stuck_between(ls, pos, pos + 1, big),
            None => stuck_between(ls, pos, pos + 1, big),
        },
{
    if r >= 4 || run_input(states, r) is None {
        lemma_input_halts(states, ls, pos, r, big);
    } else {
        let next = run_input(states, r).unwrap();
        lemma_input_witnessed(states, ls, pos, r, next);
        lemma_input_covering(states, ls, pos, r, next, big);
        assert forall|p: int, d: Seq<int>| pos <= p < pos + 1 implies !#[trigger] halts_at(
            ls,
            p,
            d,
            big,
        ) by {
            lemma_input_runs(states, ls, pos, r, big, d);
        }
    }
}

pub proof fn lemma_reg_run_regs(ls: Seq<Ins>, i: int)
    requires
        0 <= i <= ls.len(),
    ensures
        forall|k: int| i <= k < reg_run(ls, i) ==> ls[k] is Reg,
        reg_run(ls, i) < ls.len() ==> ls[reg_run(ls, i)] is Inp,
    decreases ls.len() - i,
{
    if i < ls.len() && !(ls[i] is Inp) {
        lemma_reg_run_regs(ls, i + 1);
    }
}

pub proof fn lemma_stuck_joined(ls: Seq<Ins>, a: int, b: int, c: int, big: bool)
    requires
        a <= b <= c,
        !stuck_between(ls, a, b, big),
        !stuck_between(ls, b, c, big),
    ensures
        !stuck_between(ls, a, c, big),
{
    if stuck_between(ls, a, c, big) {
        let (p, d) = choose|p: int, d: Seq<int>| a <= p < c && #[trigger] halts_at(ls, p, d, big);
        if p < b {
            assert(stuck_between(ls, a, b, big));
        } else {
            assert(stuck_between(ls, b, c, big));
        }
    }
}

pub proof fn lemma_stuck_wider(ls: Seq<Ins>, a: int, b: int, big: bool)
    requires
        0 <= a <= b <= ls.len(),
        stuck_between(ls, a, b, big),
    ensures
        stuck(ls, big),
{
    let (p, d) = choose|p: int, d: Seq<int>| a <= p < b && #[trigger] halts_at(ls, p, d, big);
    assert(0 <= p < ls.len() && halts_at(ls, p, d, big));
}

/// The search goes through the program with states in order, or stops.
pub proof fn lemma_run(states: Seq<State>, ls: Seq<Ins>, pos: int, big: bool)
    requires
        0 <= pos <= ls.len(),
        witnessed(states, ls, pos),
        covering(states, ls, pos, big),
        finest(states, ls, pos, big),
        !stuck_between(ls, 0, pos, big),
    ensures
        match run_spec(states, ls, pos, big) {
            Some(end) => witnessed(end, ls, ls.len() as int) && covering(
                end,
                ls,
                ls.len() as int,
                big,
            ) && !stuck(ls, big),
            None => stuck(ls, big),
        },
    decreases ls.len() - pos,
{
    if pos < ls.len() {
        let cut = reg_run(ls, pos);
        lemma_reg_run(ls, pos);
        lemma_reg_run_regs(ls, pos);
        if cut > pos {
            lemma_block_step(states, ls, pos, cut, big);
            match run_block(states, ls.subrange(pos, cut)) {
                Some(next) => {
                    lemma_collect_keeps(next, ls, cut, big);
                    lemma_stuck_joined(ls, 0, pos, cut, big);
                    lemma_run(collect_spec(next, big), ls, cut, big);
                },
                None => {
                    lemma_stuck_wider(ls, pos, cut, big);
                },
            }
        } else {
            let r = ls[pos]->Inp_0;
            lemma_input_step(states, ls, pos, r, big);
            if r >= 4 || run_input(states, r) is None {
                lemma_stuck_wider(ls, pos, pos + 1, big);
            } else {
                let next = run_input(states, r).unwrap();
                lemma_collect_keeps(next, ls, pos + 1, big);
                lemma_stuck_joined(ls, 0, pos, pos + 1, big);
                lemma_run(collect_spec(next, big), ls, pos + 1, big);
            }
        }
    }
}

/// What the search gives for a program: nothing if it stops on the way
/// or no digits are accepted, else the number of accepted digits that no
/// accepted digits better.
pub open spec fn finds(ls: Seq<Ins>, big: bool, r: Option<u64>) -> bool {
    match r {
        Some(n) => !stuck(ls, big) && (exists|d: Seq<int>| #[trigger]
            accepted(ls, d) && number_of(d) == n) && forall|d: Seq<int>| #[trigger]
            accepted(ls, d) ==> !beats(number_of(d), n as int, big),
        None => stuck(ls, big) || forall|d: Seq<int>| !#[trigger] accepted(ls, d),
    }
}

pub proof fn lemma_start(ls: Seq<Ins>, big: bool)
    ensures
        witnessed(seq![([0i64, 0i64, 0i64, 0i64], 0u64)], ls, 0),
        covering(seq![([0i64, 0i64, 0i64, 0i64], 0u64)], ls, 0, big),
        finest(seq![([0i64, 0i64, 0i64, 0i64], 0u64)], ls, 0, big),
        !stuck_between(ls, 0, 0, big),
{
    let zero: [i64; 4] = [0i64, 0i64, 0i64, 0i64];
    let start: Seq<State> = seq![(zero, 0u64)];
    let none = Seq::<int>::empty();
    assert(witnessed(start, ls, 0)) by {
        reveal(witnessed);
        assert(start[0] == (zero, 0u64));
        assert(number_of(none) == 0);
        assert(reaches(ls, 0, none, zero));
        assert(reaches(ls, 0, none, start[0].0) && number_of(none) == start[0].1);
        assert(told(ls, 0, start[0]));
    }
    assert(covering(start, ls, 0, big)) by {
        reveal(covering);
        assert forall|d: Seq<int>| #[trigger] fit(ls, 0, d) implies held(start, ls, 0, d, big) by {
            assert(d =~= none);
            assert(trace(ls, 0, d) == Some(start[0].0));
        }
    }
    assert(finest(start, ls, 0, big)) by {
        reveal(finest);
        assert forall|d: Seq<int>| #[trigger] reaches(ls, 0, d, zero) implies !beats(
            number_of(d),
            0,
            big,
        ) by {
            assert(d =~= none);
        }
        assert(peak(ls, 0, start[0], big));
    }
}

/// The search finds the best number whose digits the program accepts.
pub proof fn lemma_search(ls: Seq<Ins>, big: bool)
    ensures
        finds(ls, big, search_spec(ls, big)),
{
    let zero: [i64; 4] = [0i64, 0i64, 0i64, 0i64];
    let start: Seq<State> = seq![(zero, 0u64)];
    lemma_start(ls, big);
    lemma_run(start, ls, 0, big);
    match run_spec(start, ls, 0, big) {
        Some(end) => {
            lemma_answer(end, big);
            let n = ls.len() as int;
            match answer_spec(end, big) {
                Some(v) => {
                    let i = choose|i: int|
                        0 <= i < end.len() && (#[trigger] end[i]).0[3] == 0 && end[i].1 == v;
                    let d = lemma_told(end, ls, n, i);
                    assert(accepted(ls, d) && number_of(d) == v);
                    assert forall|d: Seq<int>| #[trigger] accepted(ls, d) implies !beats(
                        number_of(d),
                        v as int,
                        big,
                    ) by {
                        let j = lemma_held(end, ls, n, big, d);
                        assert(end[j].0[3] == 0);
                    }
                },
                None => {
                    assert forall|d: Seq<int>| !#[trigger] accepted(ls, d) by {
                        if accepted(ls, d) {
                            let j = lemma_held(end, ls, n, big, d);
                            assert(end[j].0[3] == 0);
                        }
                    }
                },
            }
        },
        None => {},
    }
}

} // verus!
