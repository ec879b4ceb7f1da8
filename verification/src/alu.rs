use crate::monad::{finds, lemma_search};
use crate::text;
use vstd::prelude::*;

verus! {

/// The second operand of an instruction: a register or a number.
#[derive(Copy, Clone, Debug)]
pub enum RVal {
    Reg(u8),
    Val(i64),
}

/// The operations of the machine that compute.
#[derive(Copy, Clone, Debug)]
pub enum RegInsType {
    Add,
    Mul,
    Div,
    Mod,
    Eql,
}

/// An instruction that computes: `a` becomes `a` combined with `b`.
#[derive(Copy, Clone, Debug)]
pub struct RegIns {
    pub t: RegInsType,
    pub a: u8,
    pub b: RVal,
}

/// An instruction: an input into a register, or a computation.
#[derive(Copy, Clone, Debug)]
pub enum Ins {
    Inp(u8),
    Reg(RegIns),
}

/// The number of the register that a name stands for.
pub open spec fn reg_of(s: Seq<char>) -> Option<u8> {
    if s == seq!['w'] {
        Some(0u8)
    } else if s == seq!['x'] {
        Some(1u8)
    } else if s == seq!['y'] {
        Some(2u8)
    } else if s == seq!['z'] {
        Some(3u8)
    } else {
        None
    }
}

/// Reads the name of a register.
pub fn parse_reg(s: &Vec<char>) -> (r: Option<u8>)
    ensures
        r == reg_of(s@),
{
    if s.len() != 1 {
        return None;
    }
    let c = s[0];
    let r = if c == 'w' {
        Some(0u8)
    } else if c == 'x' {
        Some(1u8)
    } else if c == 'y' {
        Some(2u8)
    } else if c == 'z' {
        Some(3u8)
    } else {
        None
    };
    proof {
        assert(s@ =~= seq![c]);
        assert(seq![c][0] == c);
        assert(seq!['w'][0] == 'w' && seq!['x'][0] == 'x' && seq!['y'][0] == 'y' && seq!['z'][0]
            == 'z');
    }
    r
}

/// The operand that a text stands for: a register name, else a number.
pub open spec fn rval_of(s: Seq<char>) -> Option<RVal> {
    match reg_of(s) {
        Some(r) => Some(RVal::Reg(r)),
        None => match text::i64_of(s) {
            Some(n) => Some(RVal::Val(n)),
            None => None,
        },
    }
}

/// Reads an operand: a register name, else a number.
pub fn parse_rval(s: &Vec<char>) -> (r: Option<RVal>)
    ensures
        r == rval_of(s@),
{
    match parse_reg(s) {
        Some(r) => Some(RVal::Reg(r)),
        None => match text::parse_i64(s) {
            Some(n) => Some(RVal::Val(n)),
            None => None,
        },
    }
}

/// The two operands that a text of the form `a b` stands for.
pub open spec fn ab_of(s: Seq<char>) -> Option<(u8, RVal)> {
    match text::split_once_spec(s, ' ') {
        Some((a, b)) => match (reg_of(a), rval_of(b)) {
            (Some(a), Some(b)) => Some((a, b)),
            _ => None,
        },
        None => None,
    }
}

/// Reads the two operands of a computation.
pub fn parse_ab(s: &Vec<char>) -> (r: Option<(u8, RVal)>)
    ensures
        r == ab_of(s@),
{
    match text::split_once(s, ' ') {
        Some((a, b)) => match (parse_reg(&a), parse_rval(&b)) {
            (Some(a), Some(b)) => Some((a, b)),
            _ => None,
        },
        None => None,
    }
}

/// The operation that the first four characters of a line name.
pub open spec fn op_of(word: Seq<char>) -> Option<RegInsType> {
    if word == seq!['a', 'd', 'd', ' '] {
        Some(RegInsType::Add)
    } else if word == seq!['m', 'u', 'l', ' '] {
        Some(RegInsType::Mul)
    } else if word == seq!['d', 'i', 'v', ' '] {
        Some(RegInsType::Div)
    } else if word == seq!['m', 'o', 'd', ' '] {
        Some(RegInsType::Mod)
    } else if word == seq!['e', 'q', 'l', ' '] {
        Some(RegInsType::Eql)
    } else {
        None
    }
}

/// The instruction that a line stands for: four characters of operation,
/// then the operands.
pub open spec fn ins_of(s: Seq<char>) -> Option<Ins> {
    if s.len() < 4 {
        None
    } else {
        let word = s.subrange(0, 4);
        let body = s.subrange(4, s.len() as int);
        if word == seq!['i', 'n', 'p', ' '] {
            match reg_of(body) {
                Some(r) => Some(Ins::Inp(r)),
                None => None,
            }
        } else {
            match (op_of(word), ab_of(body)) {
                (Some(t), Some((a, b))) => Some(Ins::Reg(RegIns { t, a, b })),
                _ => None,
            }
        }
    }
}

fn is_word(s: &Vec<char>, a: char, b: char, c: char) -> (r: bool)
    requires
        s.len() >= 4,
    ensures
        r == (s@.subrange(0, 4) == seq![a, b, c, ' ']),
{
    let r = s[0] == a && s[1] == b && s[2] == c && s[3] == ' ';
    proof {
        let w = s@.subrange(0, 4);
        let e = seq![a, b, c, ' '];
        assert(w[0] == s@[0] && w[1] == s@[1] && w[2] == s@[2] && w[3] == s@[3]);
        assert(e[0] == a && e[1] == b && e[2] == c && e[3] == ' ');
        if r {
            assert(w =~= e);
        }
    }
    r
}

/// Reads one instruction. `None` when the line is not one.
pub fn parse_ins(s: &Vec<char>) -> (r: Option<Ins>)
    ensures
        r == ins_of(s@),
{
    if s.len() < 4 {
        return None;
    }
    let body = text::slice(s, 4, s.len());
    if is_word(s, 'i', 'n', 'p') {
        match parse_reg(&body) {
            Some(r) => Some(Ins::Inp(r)),
            None => None,
        }
    } else {
        let t = if is_word(s, 'a', 'd', 'd') {
            RegInsType::Add
        } else if is_word(s, 'm', 'u', 'l') {
            RegInsType::Mul
        } else if is_word(s, 'd', 'i', 'v') {
            RegInsType::Div
        } else if is_word(s, 'm', 'o', 'd') {
            RegInsType::Mod
        } else if is_word(s, 'e', 'q', 'l') {
            RegInsType::Eql
        } else {
            return None;
        };
        match parse_ab(&body) {
            Some((a, b)) => Some(Ins::Reg(RegIns { t, a, b })),
            None => None,
        }
    }
}

/// Reads a program, one instruction from each line.
pub fn read_data(lines: &Vec<Vec<char>>) -> (r: Option<Vec<Ins>>)
    ensures
        r is Some <==> forall|i: int| 0 <= i < lines.len() ==> ins_of(#[trigger] lines[i]@) is Some,
        r matches Some(v) ==> v.len() == lines.len() && forall|i: int|
            0 <= i < v.len() ==> Some(#[trigger] v[i]) == ins_of(lines[i]@),
{
    let mut out: Vec<Ins> = Vec::new();
    let mut i: usize = 0;
    while i < lines.len()
        invariant
            i <= lines.len(),
            out.len() == i,
            forall|k: int| 0 <= k < i ==> ins_of(#[trigger] lines[k]@) is Some,
            forall|k: int| 0 <= k < i ==> Some(#[trigger] out[k]) == ins_of(lines[k]@),
        decreases lines.len() - i,
    {
        match parse_ins(&lines[i]) {
            Some(ins) => {
                out.push(ins);
            },
            None => {
                return None;
            },
        }
        i = i + 1;
    }
    Some(out)
}

/// The number that the operand `b` stands for.
pub open spec fn operand(regs: Seq<i64>, b: RVal) -> i64 {
    match b {
        RVal::Reg(r) => regs[r as int],
        RVal::Val(n) => n,
    }
}

/// The result of an operation on two numbers; `None` where the machine
/// has none: a result out of range, a division by zero.
pub open spec fn combine(t: RegInsType, a: i64, b: i64) -> Option<i64> {
    match t {
        RegInsType::Add => a.checked_add(b),
        RegInsType::Mul => a.checked_mul(b),
        RegInsType::Div => a.checked_div(b),
        RegInsType::Mod => a.checked_rem_euclid(b),
        RegInsType::Eql => Some(
            if a == b {
                1i64
            } else {
                0i64
            },
        ),
    }
}

/// Whether the registers named by an instruction exist.
pub open spec fn regs_exist(a: u8, b: RVal) -> bool {
    a < 4 && (b matches RVal::Reg(r) ==> r < 4)
}

/// The registers after an instruction, `None` where it cannot be carried
/// out.
pub open spec fn exec_spec(t: RegInsType, regs: Seq<i64>, a: u8, b: RVal) -> Option<Seq<i64>> {
    if !regs_exist(a, b) {
        None
    } else {
        match combine(t, regs[a as int], operand(regs, b)) {
            Some(v) => Some(regs.update(a as int, v)),
            None => None,
        }
    }
}

impl RegInsType {
    /// Carries out the operation where it can be. Returns `false`, and
    /// leaves the registers alone, where it cannot.
    pub fn try_exec(&self, regs: &mut [i64; 4], a: u8, b: RVal) -> (ok: bool)
        ensures
            ok == exec_spec(*self, old(regs)@, a, b).is_some(),
            ok ==> Some(final(regs)@) == exec_spec(*self, old(regs)@, a, b),
            !ok ==> *final(regs) == *old(regs),
    {
        if a >= 4 {
            return false;
        }
        let bv: i64 = match b {
            RVal::Reg(r) => {
                if r >= 4 {
                    return false;
                }
                regs[r as usize]
            },
            RVal::Val(n) => n,
        };
        let av: i64 = regs[a as usize];
        let res: Option<i64> = match self {
            RegInsType::Add => av.checked_add(bv),
            RegInsType::Mul => av.checked_mul(bv),
            RegInsType::Div => av.checked_div(bv),
            RegInsType::Mod => av.checked_rem_euclid(bv),
            RegInsType::Eql => Some(
                if av == bv {
                    1
                } else {
                    0
                },
            ),
        };
        match res {
            Some(v) => {
                regs[a as usize] = v;
                true
            },
            None => false,
        }
    }

    /// Carries out the operation.
    pub fn exec(&self, regs: &mut [i64; 4], a: u8, b: RVal)
        requires
            exec_spec(*self, old(regs)@, a, b) is Some,
        ensures
            Some(final(regs)@) == exec_spec(*self, old(regs)@, a, b),
    {
        let ok = self.try_exec(regs, a, b);
        assert(ok);
    }
}

impl RegIns {
    /// Carries out the instruction.
    pub fn exec(&self, regs: &mut [i64; 4])
        requires
            exec_spec(self.t, old(regs)@, self.a, self.b) is Some,
        ensures
            Some(final(regs)@) == exec_spec(self.t, old(regs)@, self.a, self.b),
    {
        self.t.exec(regs, self.a, self.b)
    }

    /// Carries out the instruction where it can be. Returns `false`, and
    /// leaves the registers alone, where it cannot.
    pub fn try_exec(&self, regs: &mut [i64; 4]) -> (ok: bool)
        ensures
            ok == exec_spec(self.t, old(regs)@, self.a, self.b).is_some(),
            ok ==> Some(final(regs)@) == exec_spec(self.t, old(regs)@, self.a, self.b),
            !ok ==> *final(regs) == *old(regs),
    {
        self.t.try_exec(regs, self.a, self.b)
    }
}

impl Ins {
    /// The computation that the instruction is.
    pub fn unwrap_reg(&self) -> (r: RegIns)
        requires
            self is Reg,
        ensures
            *self == Ins::Reg(r),
    {
        match self {
            Ins::Reg(r) => *r,
            Ins::Inp(_) => RegIns { t: RegInsType::Add, a: 0, b: RVal::Val(0) },
        }
    }

    /// The register that the input goes to.
    pub fn unwrap_inp(&self) -> (r: u8)
        requires
            self is Inp,
        ensures
            *self == Ins::Inp(r),
    {
        match self {
            Ins::Inp(r) => *r,
            Ins::Reg(_) => 0,
        }
    }

    /// Whether the instruction is a computation.
    pub fn is_reg(&self) -> (r: bool)
        ensures
            r == (self is Reg),
    {
        match self {
            Ins::Inp(_) => false,
            Ins::Reg(_) => true,
        }
    }
}

/// The length of the run of computing instructions that `ls` begins
/// with, counted from `i`.
pub open spec fn reg_run(ls: Seq<Ins>, i: int) -> int
    decreases ls.len() - i,
{
    if i < 0 || i >= ls.len() || ls[i] is Inp {
        i
    } else {
        reg_run(ls, i + 1)
    }
}

/// Where the program `ls` is to be cut from `from` on: after the
/// computing instructions that stand before the next input.
pub fn split_reg_ins(ls: &Vec<Ins>, from: usize) -> (i: usize)
    requires
        from <= ls.len(),
    ensures
        i == reg_run(ls@, from as int),
        from <= i <= ls.len(),
        forall|k: int| from <= k < i ==> ls[k] is Reg,
        i < ls.len() ==> ls[i as int] is Inp,
{
    let mut i: usize = from;
    loop
        invariant
            from <= i <= ls.len(),
            reg_run(ls@, from as int) == reg_run(ls@, i as int),
            forall|k: int| from <= k < i ==> ls[k] is Reg,
        decreases ls.len() - i,
    {
        if i >= ls.len() {
            return i;
        } else if !ls[i].is_reg() {
            return i;
        }
        i += 1;
    }
}

/// The registers as an array again.
pub open spec fn as_regs(s: Seq<i64>) -> [i64; 4] {
    [s[0], s[1], s[2], s[3]]
}

/// The registers after a run of computing instructions, `None` where one
/// of them cannot be carried out.
pub open spec fn block_spec(regs: [i64; 4], block: Seq<Ins>) -> Option<[i64; 4]>
    decreases block.len(),
{
    if block.len() == 0 {
        Some(regs)
    } else {
        match block_spec(regs, block.drop_last()) {
            Some(mid) => match block.last() {
                Ins::Reg(ins) => match exec_spec(ins.t, mid@, ins.a, ins.b) {
                    Some(out) => Some(as_regs(out)),
                    None => None,
                },
                Ins::Inp(_) => None,
            },
            None => None,
        }
    }
}

/// Whether `n` is to be kept rather than `old`: the greater one, or the
/// lesser one.
pub open spec fn better(n: u64, old: u64, big: bool) -> bool {
    if big {
        old < n
    } else {
        old > n
    }
}

/// The first index from `i` on where the registers `key` stand in the
/// list, or the length of the list.
pub open spec fn find_key(h: Seq<([i64; 4], u64)>, key: [i64; 4], i: int) -> int
    decreases h.len() - i,
{
    if i < 0 || i >= h.len() {
        h.len() as int
    } else if h[i].0 == key {
        i
    } else {
        find_key(h, key, i + 1)
    }
}

/// The list after the state `(key, n)` has been noted: of two states with
/// equal registers the better one is kept.
pub open spec fn insert_spec(h: Seq<([i64; 4], u64)>, key: [i64; 4], n: u64, big: bool) -> Seq<
    ([i64; 4], u64),
> {
    let i = find_key(h, key, 0);
    if i < h.len() {
        if better(n, h[i].1, big) {
            h.update(i, (h[i].0, n))
        } else {
            h
        }
    } else {
        h.push((key, n))
    }
}

/// The states of `items` with each register content kept once, together
/// with the best number that led to it.
pub open spec fn collect_spec(items: Seq<([i64; 4], u64)>, big: bool) -> Seq<([i64; 4], u64)>
    decreases items.len(),
{
    if items.len() == 0 {
        seq![]
    } else {
        insert_spec(collect_spec(items.drop_last(), big), items.last().0, items.last().1, big)
    }
}

fn same_regs(a: &[i64; 4], b: &[i64; 4]) -> (r: bool)
    ensures
        r == (*a == *b),
{
    let r = a[0] == b[0] && a[1] == b[1] && a[2] == b[2] && a[3] == b[3];
    proof {
        if r {
            assert(*a =~= *b);
        }
    }
    r
}

fn collect(items: &Vec<([i64; 4], u64)>, big: bool) -> (h: Vec<([i64; 4], u64)>)
    ensures
        h@ == collect_spec(items@, big),
{
    let mut h: Vec<([i64; 4], u64)> = Vec::new();
    let mut k: usize = 0;
    while k < items.len()
        invariant
            k <= items.len(),
            h@ == collect_spec(items@.subrange(0, k as int), big),
        decreases items.len() - k,
    {
        let (regs, n) = items[k];
        proof {
            assert(items@.subrange(0, k + 1).drop_last() =~= items@.subrange(0, k as int));
            assert(items@.subrange(0, k + 1).last() == items@[k as int]);
        }
        let ghost before = h@;
        let mut i: usize = 0;
        let mut found = false;
        while i < h.len()
            invariant_except_break
                !found,
                h@ == before,
                find_key(h@, regs, 0) == find_key(h@, regs, i as int),
            invariant
                i <= h.len(),
            ensures
                found ==> h@ == insert_spec(before, regs, n, big),
                !found ==> h@ == before && find_key(before, regs, 0) == before.len(),
            decreases h.len() - i,
        {
            if same_regs(&h[i].0, &regs) {
                let entry = h[i];
                let keep = if big {
                    entry.1 < n
                } else {
                    entry.1 > n
                };
                if keep {
                    h.set(i, (entry.0, n));
                }
                found = true;
                break ;
            }
            i = i + 1;
        }
        if !found {
            h.push((regs, n));
        }
        k = k + 1;
    }
    assert(items@.subrange(0, k as int) =~= items@);
    h
}

/// Keeps each register content once, with the greatest number that led
/// to it.
pub fn collect_big(items: &Vec<([i64; 4], u64)>) -> (h: Vec<([i64; 4], u64)>)
    ensures
        h@ == collect_spec(items@, true),
{
    collect(items, true)
}

/// Keeps each register content once, with the least number that led to
/// it.
pub fn collect_small(items: &Vec<([i64; 4], u64)>) -> (h: Vec<([i64; 4], u64)>)
    ensures
        h@ == collect_spec(items@, false),
{
    collect(items, false)
}

/// The states after each state of `states` has gone through the run of
/// computing instructions `block`.
pub open spec fn run_block(states: Seq<([i64; 4], u64)>, block: Seq<Ins>) -> Option<
    Seq<([i64; 4], u64)>,
>
    decreases states.len(),
{
    if states.len() == 0 {
        Some(seq![])
    } else {
        match (run_block(states.drop_last(), block), block_spec(states.last().0, block)) {
            (Some(rest), Some(regs)) => Some(rest.push((regs, states.last().1))),
            _ => None,
        }
    }
}

/// The registers with register `r` set to `v`.
pub open spec fn set_reg(regs: [i64; 4], r: u8, v: i64) -> [i64; 4] {
    as_regs(regs@.update(r as int, v))
}

/// The states that follow one state when the digits from `d` to 9 are
/// read into register `r`: each digit is appended to the number read so
/// far. `None` when that number leaves the range of `u64`.
pub open spec fn digits_from(state: ([i64; 4], u64), r: u8, d: int) -> Option<Seq<([i64; 4], u64)>>
    decreases 10 - d,
{
    if d < 1 || d > 9 {
        Some(seq![])
    } else if state.1 * 10 + d > u64::MAX {
        None
    } else {
        match digits_from(state, r, d + 1) {
            Some(rest) => Some(
                seq![(set_reg(state.0, r, d as i64), (state.1 * 10 + d) as u64)] + rest,
            ),
            None => None,
        }
    }
}

/// The states after each state of `states` has read a digit into
/// register `r`.
pub open spec fn run_input(states: Seq<([i64; 4], u64)>, r: u8) -> Option<Seq<([i64; 4], u64)>>
    decreases states.len(),
{
    if states.len() == 0 {
        Some(seq![])
    } else {
        match (run_input(states.drop_last(), r), digits_from(states.last(), r, 1)) {
            (Some(rest), Some(more)) => Some(rest + more),
            _ => None,
        }
    }
}

/// The states at the end of the program, when `states` are those reached
/// before instruction `pos`. States with equal registers are merged after
/// every run of computing instructions and after every input.
pub open spec fn run_spec(states: Seq<([i64; 4], u64)>, ls: Seq<Ins>, pos: int, big: bool)
    -> Option<Seq<([i64; 4], u64)>>
    decreases ls.len() - pos,
{
    if pos < 0 || pos >= ls.len() {
        Some(states)
    } else {
        let cut = reg_run(ls, pos);
        if cut > pos {
            if cut > ls.len() {
                None
            } else {
                match run_block(states, ls.subrange(pos, cut)) {
                    Some(next) => run_spec(collect_spec(next, big), ls, cut, big),
                    None => None,
                }
            }
        } else {
            match ls[pos] {
                Ins::Inp(r) => if r >= 4 {
                    None
                } else {
                    match run_input(states, r) {
                        Some(next) => run_spec(collect_spec(next, big), ls, pos + 1, big),
                        None => None,
                    }
                },
                Ins::Reg(_) => None,
            }
        }
    }
}

/// The best number among the states whose last register holds 0.
pub open spec fn answer_spec(states: Seq<([i64; 4], u64)>, big: bool) -> Option<u64>
    decreases states.len(),
{
    if states.len() == 0 {
        None
    } else {
        let rest = answer_spec(states.drop_last(), big);
        if states.last().0[3] == 0 {
            match rest {
                Some(v) => if better(states.last().1, v, big) {
                    Some(states.last().1)
                } else {
                    Some(v)
                },
                None => Some(states.last().1),
            }
        } else {
            rest
        }
    }
}

/// The answer that the search gives for a program: the greatest (or
/// least) number whose digits, read one by one, leave 0 in the last
/// register. `None` when the machine cannot carry out the program on some
/// state, when a number leaves the range of `u64`, or when no state ends
/// with 0.
pub open spec fn search_spec(ls: Seq<Ins>, big: bool) -> Option<u64> {
    match run_spec(seq![([0i64, 0i64, 0i64, 0i64], 0u64)], ls, 0, big) {
        Some(states) => answer_spec(states, big),
        None => None,
    }
}

pub proof fn lemma_reg_run(ls: Seq<Ins>, i: int)
    requires
        0 <= i <= ls.len(),
    ensures
        i <= reg_run(ls, i) <= ls.len(),
    decreases ls.len() - i,
{
    if i < ls.len() && !(ls[i] is Inp) {
        lemma_reg_run(ls, i + 1);
    }
}

fn run_block_on(regs: &mut [i64; 4], ls: &Vec<Ins>, from: usize, to: usize) -> (ok: bool)
    requires
        from <= to <= ls.len(),
        forall|k: int| from <= k < to ==> ls[k] is Reg,
    ensures
        ok == block_spec(*old(regs), ls@.subrange(from as int, to as int)).is_some(),
        ok ==> Some(*final(regs)) == block_spec(*old(regs), ls@.subrange(from as int, to as int)),
{
    let mut i: usize = from;
    while i < to
        invariant
            from <= i <= to <= ls.len(),
            forall|k: int| from <= k < to ==> ls[k] is Reg,
            Some(*regs) == block_spec(*old(regs), ls@.subrange(from as int, i as int)),
        decreases to - i,
    {
        proof {
            let next = ls@.subrange(from as int, i + 1);
            assert(next.drop_last() =~= ls@.subrange(from as int, i as int));
            assert(next.last() == ls@[i as int]);
        }
        let ghost before = *regs;
        let ins = ls[i].unwrap_reg();
        if !ins.try_exec(regs) {
            proof {
                assert(ls@.subrange(from as int, to as int).subrange(0, i + 1 - from)
                    =~= ls@.subrange(from as int, i + 1));
                assert(block_spec(*old(regs), ls@.subrange(from as int, i + 1)) is None);
                lemma_block_fails(
                    *old(regs),
                    ls@.subrange(from as int, to as int),
                    i + 1 - from,
                );
            }
            return false;
        }
        assert(*regs =~= as_regs(exec_spec(ins.t, before@, ins.a, ins.b).unwrap()));
        i = i + 1;
    }
    true
}

/// A run of instructions cannot be carried out if a part that it begins
/// with cannot.
pub proof fn lemma_block_fails(regs: [i64; 4], block: Seq<Ins>, n: int)
    requires
        0 <= n <= block.len(),
        block_spec(regs, block.subrange(0, n)) is None,
    ensures
        block_spec(regs, block) is None,
    decreases block.len() - n,
{
    if n == block.len() {
        assert(block.subrange(0, n) =~= block);
    } else {
        assert(block.drop_last().subrange(0, n) =~= block.subrange(0, n));
        lemma_block_fails(regs, block.drop_last(), n);
    }
}

fn search(ls: &Vec<Ins>, big: bool) -> (r: Option<u64>)
    ensures
        r == search_spec(ls@, big),
{
    let mut map: Vec<([i64; 4], u64)> = Vec::new();
    map.push(([0, 0, 0, 0], 0));
    assert(map@ =~= seq![([0i64, 0i64, 0i64, 0i64], 0u64)]);
    let ghost first = map@;
    let mut pos: usize = 0;
    while pos < ls.len()
        invariant
            pos <= ls.len(),
            first == seq![([0i64, 0i64, 0i64, 0i64], 0u64)],
            run_spec(first, ls@, 0, big) == run_spec(map@, ls@, pos as int, big),
        decreases ls.len() - pos,
    {
        let cut = split_reg_ins(ls, pos);
        let mut next: Vec<([i64; 4], u64)> = Vec::new();
        if cut > pos {
            let mut k: usize = 0;
            while k < map.len()
                invariant
                    k <= map.len(),
                    pos < cut <= ls.len(),
                    forall|j: int| pos <= j < cut ==> ls[j] is Reg,
                    Some(next@) == run_block(
                        map@.subrange(0, k as int),
                        ls@.subrange(pos as int, cut as int),
                    ),
                    cut == reg_run(ls@, pos as int),
                    first == seq![([0i64, 0i64, 0i64, 0i64], 0u64)],
                    run_spec(first, ls@, 0, big) == run_spec(map@, ls@, pos as int, big),
                decreases map.len() - k,
            {
                proof {
                    assert(map@.subrange(0, k + 1).drop_last() =~= map@.subrange(0, k as int));
                    assert(map@.subrange(0, k + 1).last() == map@[k as int]);
                }
                let (mut regs, n) = map[k];
                if !run_block_on(&mut regs, ls, pos, cut) {
                    proof {
                        lemma_run_block_fails(
                            map@,
                            ls@.subrange(pos as int, cut as int),
                            k + 1,
                        );
                    }
                    return None;
                }
                next.push((regs, n));
                k = k + 1;
            }
            assert(map@.subrange(0, k as int) =~= map@);
            map = collect(&next, big);
            pos = cut;
        } else {
            let r = ls[pos].unwrap_inp();
            if r >= 4 {
                return None;
            }
            let mut k: usize = 0;
            while k < map.len()
                invariant
                    k <= map.len(),
                    pos < ls.len(),
                    r < 4,
                    ls@[pos as int] == Ins::Inp(r),
                    reg_run(ls@, pos as int) == pos,
                    Some(next@) == run_input(map@.subrange(0, k as int), r),
                    first == seq![([0i64, 0i64, 0i64, 0i64], 0u64)],
                    run_spec(first, ls@, 0, big) == run_spec(map@, ls@, pos as int, big),
                decreases map.len() - k,
            {
                proof {
                    assert(map@.subrange(0, k + 1).drop_last() =~= map@.subrange(0, k as int));
                    assert(map@.subrange(0, k + 1).last() == map@[k as int]);
                }
                let state = map[k];
                let ghost base = next@;
                let mut d: u8 = 1;
                while d <= 9
                    invariant
                        1 <= d <= 10,
                        r < 4,
                        k < map.len(),
                        state == map@[k as int],
                        pos < ls.len(),
                        ls@[pos as int] == Ins::Inp(r),
                        reg_run(ls@, pos as int) == pos,
                        Some(base) == run_input(map@.subrange(0, k as int), r),
                        digits_from(state, r, 1) == (match digits_from(state, r, d as int) {
                            Some(rest) => Some(next@.subrange(base.len() as int, next@.len() as int)
                                + rest),
                            None => None,
                        }),
                        base.len() <= next@.len(),
                        next@.subrange(0, base.len() as int) == base,
                        first == seq![([0i64, 0i64, 0i64, 0i64], 0u64)],
                        run_spec(first, ls@, 0, big) == run_spec(map@, ls@, pos as int, big),
                    decreases 10 - d,
                {
                    let mut new_regs = state.0;
                    new_regs[r as usize] = d as i64;
                    let number = match state.1.checked_mul(10) {
                        Some(v) => match v.checked_add(d as u64) {
                            Some(w) => w,
                            None => {
                                proof {
                                    lemma_run_input_fails(map@, r, k + 1);
                                }
                                return None;
                            },
                        },
                        None => {
                            proof {
                                lemma_run_input_fails(map@, r, k + 1);
                            }
                            return None;
                        },
                    };
                    let ghost sofar = next@.subrange(base.len() as int, next@.len() as int);
                    proof {
                        assert(new_regs =~= set_reg(state.0, r, d as i64));
                    }
                    next.push((new_regs, number));
                    proof {
                        let entry = (set_reg(state.0, r, d as i64), number);
                        assert(next@.subrange(base.len() as int, next@.len() as int)
                            =~= sofar.push(entry));
                        assert(next@.subrange(0, base.len() as int) =~= base);
                        match digits_from(state, r, d + 1) {
                            Some(rest) => {
                                assert(sofar + (seq![entry] + rest) =~= sofar.push(entry) + rest);
                            },
                            None => {},
                        }
                    }
                    d = d + 1;
                }
                proof {
                    let added = next@.subrange(base.len() as int, next@.len() as int);
                    assert(added + Seq::<([i64; 4], u64)>::empty() =~= added);
                    assert(next@ =~= base + added);
                }
                k = k + 1;
            }
            assert(map@.subrange(0, k as int) =~= map@);
            map = collect(&next, big);
            pos = pos + 1;
        }
    }
    let mut best: Option<u64> = None;
    let mut k: usize = 0;
    while k < map.len()
        invariant
            k <= map.len(),
            best == answer_spec(map@.subrange(0, k as int), big),
        decreases map.len() - k,
    {
        proof {
            assert(map@.subrange(0, k + 1).drop_last() =~= map@.subrange(0, k as int));
            assert(map@.subrange(0, k + 1).last() == map@[k as int]);
        }
        let state = map[k];
        if state.0[3] == 0 {
            best = match best {
                Some(v) => {
                    let keep = if big {
                        v < state.1
                    } else {
                        v > state.1
                    };
                    if keep {
                        Some(state.1)
                    } else {
                        Some(v)
                    }
                },
                None => Some(state.1),
            };
        }
        k = k + 1;
    }
    assert(map@.subrange(0, k as int) =~= map@);
    best
}

pub proof fn lemma_run_block_fails(states: Seq<([i64; 4], u64)>, block: Seq<Ins>, n: int)
    requires
        1 <= n <= states.len(),
        block_spec(states[n - 1].0, block) is None,
    ensures
        run_block(states, block) is None,
    decreases states.len() - n,
{
    if n < states.len() {
        assert(states.drop_last()[n - 1] == states[n - 1]);
        lemma_run_block_fails(states.drop_last(), block, n);
    }
}

pub proof fn lemma_run_input_fails(states: Seq<([i64; 4], u64)>, r: u8, n: int)
    requires
        1 <= n <= states.len(),
        digits_from(states[n - 1], r, 1) is None,
    ensures
        run_input(states, r) is None,
    decreases states.len() - n,
{
    if n < states.len() {
        assert(states.drop_last()[n - 1] == states[n - 1]);
        lemma_run_input_fails(states.drop_last(), r, n);
    }
}

/// The greatest number whose digits the program accepts: the digits are
/// read by the inputs one after another, each is from 1 to 9, and the
/// program accepts them when it ends with 0 in the last register. `None`
/// when no digits are accepted, or when the search stops on the way.
pub fn p1(ls: &Vec<Ins>) -> (r: Option<u64>)
    ensures
        finds(ls@, true, r),
        r == search_spec(ls@, true),
{
    proof {
        lemma_search(ls@, true);
    }
    search(ls, true)
}

/// The least number whose digits the program accepts.
pub fn p2(ls: &Vec<Ins>) -> (r: Option<u64>)
    ensures
        finds(ls@, false, r),
        r == search_spec(ls@, false),
{
    proof {
        lemma_search(ls@, false);
    }
    search(ls, false)
}

} // verus!
