use bitvec::field::BitField;
use bitvec::order::Msb0;
use bitvec::vec::BitVec;
use vstd::prelude::*;

verus! {

/// A growable run of bits, kept in a `bitvec::vec::BitVec` with the bit
/// order `Msb0`.
#[verifier::external_body]
pub struct Bits {
    inner: BitVec<u8, Msb0>,
}

/// The bits that a bit vector holds, in index order.
pub uninterp spec fn bits_of(v: Bits) -> Seq<bool>;

/// The number that a run of bits denotes when the first bit is the most
/// significant one.
pub open spec fn be_value(bits: Seq<bool>) -> nat
    decreases bits.len(),
{
    if bits.len() == 0 {
        0
    } else {
        2 * be_value(bits.drop_last()) + (if bits.last() {
            1nat
        } else {
            0nat
        })
    }
}

/// `BitVec::new`: a vector without bits.
#[verifier::external_body]
fn bits_new() -> (v: Bits)
    ensures
        bits_of(v) == Seq::<bool>::empty(),
{
    Bits { inner: BitVec::new() }
}

/// `BitVec::push`: appends one bit.
#[verifier::external_body]
fn bits_push(v: &mut Bits, bit: bool)
    requires
        bits_of(*old(v)).len() < usize::MAX / 8,
    ensures
        bits_of(*final(v)) == bits_of(*old(v)).push(bit),
{
    v.inner.push(bit)
}

/// `BitVec::len`: the number of bits held.
#[verifier::external_body]
fn bits_len(v: &Bits) -> (n: usize)
    ensures
        n == bits_of(*v).len(),
{
    v.inner.len()
}

/// Indexing a bit vector: the bit at `i`.
#[verifier::external_body]
fn bit_at(v: &Bits, i: usize) -> (b: bool)
    requires
        i < bits_of(*v).len(),
    ensures
        b == bits_of(*v)[i as int],
{
    v.inner[i]
}

/// `BitField::load_be` on the bits from `from` up to `to`: with the order
/// `Msb0` the bit at the lowest index is the most significant one of the
/// number loaded.
#[verifier::external_body]
fn load_be(v: &Bits, from: usize, to: usize) -> (n: u64)
    requires
        from < to <= bits_of(*v).len(),
        to - from <= 64,
    ensures
        n == be_value(bits_of(*v).subrange(from as int, to as int)),
{
    v.inner[from..to].load_be::<u64>()
}

/// The number that a hexadecimal digit (0 to 9, A to F) stands for.
pub open spec fn hex_value(c: char) -> Option<u8> {
    if '0' <= c && c <= '9' {
        Some((c as int - '0' as int) as u8)
    } else if 'A' <= c && c <= 'F' {
        Some((c as int - 'A' as int + 10) as u8)
    } else {
        None
    }
}

/// The four bits of a number below 16, the most significant first.
pub open spec fn nibble_bits(v: u8) -> Seq<bool> {
    seq![(v / 8) % 2 == 1, (v / 4) % 2 == 1, (v / 2) % 2 == 1, v % 2 == 1]
}

/// The bits that a text of hexadecimal digits stands for; other
/// characters are passed over.
pub open spec fn hex_bits(s: Seq<char>) -> Seq<bool>
    decreases s.len(),
{
    if s.len() == 0 {
        seq![]
    } else {
        match hex_value(s.last()) {
            Some(v) => hex_bits(s.drop_last()) + nibble_bits(v),
            None => hex_bits(s.drop_last()),
        }
    }
}

pub proof fn lemma_hex_bits_len(s: Seq<char>)
    ensures
        hex_bits(s).len() <= 4 * s.len(),
    decreases s.len(),
{
    if s.len() > 0 {
        lemma_hex_bits_len(s.drop_last());
    }
}

/// The number that a hexadecimal digit stands for.
pub fn hex_digit(c: char) -> (r: Option<u8>)
    ensures
        r == hex_value(c),
        r matches Some(v) ==> v < 16,
{
    if c >= '0' && c <= '9' {
        Some(((c as u32) - ('0' as u32)) as u8)
    } else if c >= 'A' && c <= 'F' {
        Some(((c as u32) - ('A' as u32) + 10) as u8)
    } else {
        None
    }
}

/// Turns a line of hexadecimal digits into bits.
pub fn read_data(line: &Vec<char>) -> (v: Bits)
    requires
        4 * line.len() < usize::MAX / 8,
    ensures
        bits_of(v) == hex_bits(line@),
{
    let mut v = bits_new();
    let mut i: usize = 0;
    while i < line.len()
        invariant
            i <= line.len(),
            4 * line.len() < usize::MAX / 8,
            bits_of(v) == hex_bits(line@.subrange(0, i as int)),
        decreases line.len() - i,
    {
        proof {
            assert(line@.subrange(0, i + 1).drop_last() =~= line@.subrange(0, i as int));
            assert(line@.subrange(0, i + 1).last() == line@[i as int]);
            lemma_hex_bits_len(line@.subrange(0, i as int));
        }
        match hex_digit(line[i]) {
            Some(d) => {
                let ghost before = bits_of(v);
                bits_push(&mut v, (d / 8) % 2 == 1);
                bits_push(&mut v, (d / 4) % 2 == 1);
                bits_push(&mut v, (d / 2) % 2 == 1);
                bits_push(&mut v, d % 2 == 1);
                assert(bits_of(v) =~= before + nibble_bits(d));
            },
            None => {},
        }
        i = i + 1;
    }
    assert(line@.subrange(0, i as int) =~= line@);
    v
}

/// A packet that works on the packets within it.
pub struct PacketOp {
    pub version: u8,
    pub type_id: u8,
    pub ls: Vec<Packet>,
}

/// A packet that holds a number.
pub struct PacketLit {
    pub version: u8,
    pub val: u64,
}

/// A packet: an operator or a literal.
pub enum Packet {
    Op(PacketOp),
    Lit(PacketLit),
}

/// A packet as a mathematical tree.
pub ghost enum Tree {
    Lit { version: u8, val: u64 },
    Op { version: u8, type_id: u8, subs: Seq<Tree> },
}

/// The tree of a packet.
pub open spec fn tree_of(p: Packet) -> Tree
    decreases p,
{
    match p {
        Packet::Lit(l) => Tree::Lit { version: l.version, val: l.val },
        Packet::Op(o) => Tree::Op { version: o.version, type_id: o.type_id, subs: trees_of(o.ls@) },
    }
}

/// The trees of a list of packets.
pub open spec fn trees_of(s: Seq<Packet>) -> Seq<Tree>
    decreases s,
{
    if s.len() == 0 {
        seq![]
    } else {
        trees_of(s.drop_last()).push(tree_of(s.last()))
    }
}

pub proof fn lemma_trees_of(s: Seq<Packet>)
    ensures
        trees_of(s).len() == s.len(),
        forall|i: int| 0 <= i < s.len() ==> #[trigger] trees_of(s)[i] == tree_of(s[i]),
    decreases s.len(),
{
    if s.len() > 0 {
        lemma_trees_of(s.drop_last());
    }
}

/// The sum of the version numbers of a packet and of all packets in it.
pub open spec fn version_sum(t: Tree) -> nat
    decreases t,
{
    match t {
        Tree::Lit { version, .. } => version as nat,
        Tree::Op { version, subs, .. } => version as nat + version_sums(subs),
    }
}

pub open spec fn version_sums(s: Seq<Tree>) -> nat
    decreases s,
{
    if s.len() == 0 {
        0
    } else {
        version_sums(s.drop_last()) + version_sum(s.last())
    }
}

/// The values of a list of packets.
pub open spec fn values(s: Seq<Tree>) -> Seq<int>
    decreases s,
{
    if s.len() == 0 {
        seq![]
    } else {
        values(s.drop_last()).push(value(s.last()))
    }
}

pub open spec fn sum(v: Seq<int>) -> int
    decreases v.len(),
{
    if v.len() == 0 {
        0
    } else {
        sum(v.drop_last()) + v.last()
    }
}

pub open spec fn product(v: Seq<int>) -> int
    decreases v.len(),
{
    if v.len() == 0 {
        1
    } else {
        product(v.drop_last()) * v.last()
    }
}

/// The least of the numbers of a non-empty list.
pub open spec fn least(v: Seq<int>) -> int
    decreases v.len(),
{
    if v.len() <= 1 {
        v[0]
    } else if least(v.drop_last()) <= v.last() {
        least(v.drop_last())
    } else {
        v.last()
    }
}

/// The greatest of the numbers of a non-empty list.
pub open spec fn greatest(v: Seq<int>) -> int
    decreases v.len(),
{
    if v.len() <= 1 {
        v[0]
    } else if greatest(v.drop_last()) >= v.last() {
        greatest(v.drop_last())
    } else {
        v.last()
    }
}

pub open spec fn truth(b: bool) -> int {
    if b {
        1
    } else {
        0
    }
}

/// The value of a packet: a literal stands for itself; an operator packet
/// is the sum (type 0), the product (1), the least (2) or the greatest (3)
/// of its parts, or 1 or 0 according to whether its first part is greater
/// than (5), less than (6) or equal to (7) its second.
pub open spec fn value(t: Tree) -> int
    decreases t,
{
    match t {
        Tree::Lit { val, .. } => val as int,
        Tree::Op { type_id, subs, .. } => {
            let v = values(subs);
            if type_id == 0 {
                sum(v)
            } else if type_id == 1 {
                product(v)
            } else if type_id == 2 {
                least(v)
            } else if type_id == 3 {
                greatest(v)
            } else if type_id == 5 {
                truth(v[0] > v[1])
            } else if type_id == 6 {
                truth(v[0] < v[1])
            } else {
                truth(v[0] == v[1])
            }
        },
    }
}

/// Whether every product of the first numbers of `v` fits in a `u64`.
pub open spec fn products_fit(v: Seq<int>) -> bool
    decreases v.len(),
{
    v.len() == 0 || (products_fit(v.drop_last()) && product(v) <= u64::MAX)
}

/// Whether a packet can be evaluated: every operator is known and has the
/// parts it needs, and no sum or product leaves the range of `u64` on the
/// way.
pub open spec fn evaluable(t: Tree) -> bool
    decreases t,
{
    match t {
        Tree::Lit { .. } => true,
        Tree::Op { type_id, subs, .. } => {
            &&& all_evaluable(subs)
            &&& type_id == 0 ==> sum(values(subs)) <= u64::MAX
            &&& type_id == 1 ==> products_fit(values(subs))
            &&& type_id == 2 || type_id == 3 ==> subs.len() >= 1
            &&& type_id == 5 || type_id == 6 || type_id == 7 ==> subs.len() >= 2
            &&& type_id <= 7 && type_id != 4
        },
    }
}

pub open spec fn all_evaluable(s: Seq<Tree>) -> bool
    decreases s,
{
    s.len() == 0 || (all_evaluable(s.drop_last()) && evaluable(s.last()))
}

pub proof fn lemma_values(s: Seq<Tree>)
    requires
        all_evaluable(s),
    ensures
        values(s).len() == s.len(),
        forall|i: int| 0 <= i < s.len() ==> #[trigger] values(s)[i] == value(s[i]),
        forall|i: int| 0 <= i < s.len() ==> evaluable(#[trigger] s[i]),
        forall|i: int| 0 <= i <= s.len() ==> all_evaluable(#[trigger] s.subrange(0, i)),
    decreases s.len(),
{
    if s.len() > 0 {
        lemma_values(s.drop_last());
        assert forall|i: int| 0 <= i < s.len() implies evaluable(#[trigger] s[i]) by {
            if i < s.len() - 1 {
                assert(s.drop_last()[i] == s[i]);
            }
        }
        assert forall|i: int| 0 <= i < s.len() implies #[trigger] values(s)[i] == value(s[i]) by {
            if i < s.len() - 1 {
                assert(s.drop_last()[i] == s[i]);
                assert(values(s.drop_last())[i] == value(s.drop_last()[i]));
            }
        }
        assert forall|i: int| 0 <= i <= s.len() implies all_evaluable(
            #[trigger] s.subrange(0, i),
        ) by {
            if i == s.len() {
                assert(s.subrange(0, i) =~= s);
            } else {
                assert(s.subrange(0, i) =~= s.drop_last().subrange(0, i));
            }
        }
    } else {
        assert forall|i: int| 0 <= i <= s.len() implies all_evaluable(
            #[trigger] s.subrange(0, i),
        ) by {
            assert(s.subrange(0, i) =~= s);
        }
    }
}

pub proof fn lemma_values_prefix(s: Seq<Tree>, i: int)
    requires
        0 <= i <= s.len(),
    ensures
        values(s.subrange(0, i)) == values(s).subrange(0, i),
        values(s).len() == s.len(),
    decreases s.len(),
{
    if s.len() == 0 {
        assert(s.subrange(0, i) =~= s);
        assert(values(s).subrange(0, i) =~= values(s));
    } else if i == s.len() {
        lemma_values_prefix(s.drop_last(), i - 1);
        assert(s.subrange(0, i) =~= s);
        assert(values(s).subrange(0, i) =~= values(s));
    } else {
        lemma_values_prefix(s.drop_last(), i);
        assert(s.subrange(0, i) =~= s.drop_last().subrange(0, i));
        assert(values(s).subrange(0, i) =~= values(s.drop_last()).subrange(0, i));
    }
}

pub proof fn lemma_value_nonneg(t: Tree)
    requires
        evaluable(t),
    ensures
        0 <= value(t),
    decreases t, 1int,
{
    match t {
        Tree::Lit { .. } => {},
        Tree::Op { type_id, subs, .. } => {
            lemma_values_nonneg(subs);
            lemma_values(subs);
            let v = values(subs);
            if type_id == 0 {
                lemma_sum_prefix(v, 0);
            } else if type_id == 1 {
                lemma_product_nonneg(v);
            } else if type_id == 2 {
                lemma_least(v);
            } else if type_id == 3 {
                lemma_greatest(v);
            }
        },
    }
}

pub proof fn lemma_values_nonneg(s: Seq<Tree>)
    requires
        all_evaluable(s),
    ensures
        forall|i: int| 0 <= i < values(s).len() ==> 0 <= #[trigger] values(s)[i],
    decreases s, 0int,
{
    if s.len() > 0 {
        lemma_values_nonneg(s.drop_last());
        lemma_value_nonneg(s.last());
        lemma_values(s);
        lemma_values(s.drop_last());
    }
}

pub proof fn lemma_sum_nonneg(v: Seq<int>)
    requires
        forall|k: int| 0 <= k < v.len() ==> 0 <= #[trigger] v[k],
    ensures
        0 <= sum(v),
    decreases v.len(),
{
    if v.len() > 0 {
        lemma_sum_nonneg(v.drop_last());
    }
}

pub proof fn lemma_sum_prefix(v: Seq<int>, i: int)
    requires
        0 <= i <= v.len(),
        forall|k: int| 0 <= k < v.len() ==> 0 <= #[trigger] v[k],
    ensures
        0 <= sum(v.subrange(0, i)) <= sum(v),
    decreases v.len() - i,
{
    if i == v.len() {
        assert(v.subrange(0, i) =~= v);
        lemma_sum_nonneg(v);
    } else {
        lemma_sum_prefix(v.drop_last(), i);
        assert(v.drop_last().subrange(0, i) =~= v.subrange(0, i));
    }
}

pub proof fn lemma_product_nonneg(v: Seq<int>)
    requires
        forall|k: int| 0 <= k < v.len() ==> 0 <= #[trigger] v[k],
    ensures
        0 <= product(v),
    decreases v.len(),
{
    if v.len() > 0 {
        lemma_product_nonneg(v.drop_last());
        let a = product(v.drop_last());
        let b = v.last();
        assert(0 <= a * b) by (nonlinear_arith)
            requires
                0 <= a,
                0 <= b,
        ;
    }
}

pub proof fn lemma_products_fit_prefix(v: Seq<int>, i: int)
    requires
        0 <= i <= v.len(),
        products_fit(v),
    ensures
        products_fit(v.subrange(0, i)),
        i > 0 ==> product(v.subrange(0, i)) <= u64::MAX,
    decreases v.len() - i,
{
    if i == v.len() {
        assert(v.subrange(0, i) =~= v);
    } else {
        lemma_products_fit_prefix(v.drop_last(), i);
        assert(v.drop_last().subrange(0, i) =~= v.subrange(0, i));
    }
}

pub proof fn lemma_least(v: Seq<int>)
    requires
        v.len() >= 1,
    ensures
        exists|i: int| 0 <= i < v.len() && v[i] == least(v),
        forall|i: int| 0 <= i < v.len() ==> least(v) <= v[i],
    decreases v.len(),
{
    if v.len() > 1 {
        lemma_least(v.drop_last());
        let i = choose|i: int| 0 <= i < v.drop_last().len() && v.drop_last()[i] == least(
            v.drop_last(),
        );
        assert(v[i] == v.drop_last()[i]);
        assert forall|k: int| 0 <= k < v.len() implies least(v) <= v[k] by {
            if k < v.len() - 1 {
                assert(v[k] == v.drop_last()[k]);
            }
        }
        if least(v.drop_last()) <= v.last() {
            assert(v[i] == least(v));
        } else {
            assert(v[v.len() - 1] == least(v));
        }
    } else {
        assert(v[0] == least(v));
    }
}

pub proof fn lemma_greatest(v: Seq<int>)
    requires
        v.len() >= 1,
    ensures
        exists|i: int| 0 <= i < v.len() && v[i] == greatest(v),
        forall|i: int| 0 <= i < v.len() ==> greatest(v) >= v[i],
    decreases v.len(),
{
    if v.len() > 1 {
        lemma_greatest(v.drop_last());
        let i = choose|i: int| 0 <= i < v.drop_last().len() && v.drop_last()[i] == greatest(
            v.drop_last(),
        );
        assert(v[i] == v.drop_last()[i]);
        assert forall|k: int| 0 <= k < v.len() implies greatest(v) >= v[k] by {
            if k < v.len() - 1 {
                assert(v[k] == v.drop_last()[k]);
            }
        }
        if greatest(v.drop_last()) >= v.last() {
            assert(v[i] == greatest(v));
        } else {
            assert(v[v.len() - 1] == greatest(v));
        }
    } else {
        assert(v[0] == greatest(v));
    }
}

pub proof fn lemma_version_sums_prefix(s: Seq<Tree>, i: int)
    requires
        0 <= i <= s.len(),
    ensures
        version_sums(s.subrange(0, i)) <= version_sums(s),
    decreases s.len() - i,
{
    if i == s.len() {
        assert(s.subrange(0, i) =~= s);
    } else {
        lemma_version_sums_prefix(s.drop_last(), i);
        assert(s.drop_last().subrange(0, i) =~= s.subrange(0, i));
    }
}

pub proof fn lemma_all_evaluable(s: Seq<Tree>)
    requires
        forall|i: int| 0 <= i < s.len() ==> evaluable(#[trigger] s[i]),
    ensures
        all_evaluable(s),
    decreases s.len(),
{
    if s.len() > 0 {
        assert forall|i: int| 0 <= i < s.drop_last().len() implies evaluable(
            #[trigger] s.drop_last()[i],
        ) by {
            assert(s.drop_last()[i] == s[i]);
        }
        lemma_all_evaluable(s.drop_last());
        assert(evaluable(s[s.len() - 1]));
    }
}

impl Packet {
    /// The value of the packet. `None` when it cannot be evaluated: an
    /// operator is unknown or lacks the parts that it needs, or a sum or
    /// a product leaves the range of `u64`.
    pub fn try_exec(&self) -> (r: Option<u64>)
        ensures
            r.is_some() == evaluable(tree_of(*self)),
            r matches Some(v) ==> v == value(tree_of(*self)),
        decreases self,
    {
        match self {
            Packet::Lit(l) => Some(l.val),
            Packet::Op(p) => {
                let ghost subs = trees_of(p.ls@);
                proof {
                    lemma_trees_of(p.ls@);
                }
                let mut parts: Vec<u64> = Vec::new();
                let mut i: usize = 0;
                while i < p.ls.len()
                    invariant
                        i <= p.ls.len(),
                        *self == Packet::Op(*p),
                        subs == trees_of(p.ls@),
                        subs.len() == p.ls.len(),
                        forall|k: int| 0 <= k < subs.len() ==> #[trigger] subs[k] == tree_of(p.ls@[k]),
                        parts.len() == i,
                        forall|k: int|
                            0 <= k < i ==> evaluable(#[trigger] subs[k]) && parts[k] == value(
                                subs[k],
                            ),
                    decreases p.ls.len() - i,
                {
                    proof {
                        vstd::std_specs::vec::axiom_vec_index_decreases(p.ls, i as int);
                        assert(subs[i as int] == tree_of(p.ls@[i as int]));
                    }
                    match p.ls[i].try_exec() {
                        Some(v) => {
                            parts.push(v);
                        },
                        None => {
                            proof {
                                if all_evaluable(subs) {
                                    lemma_values(subs);
                                    assert(evaluable(subs[i as int]));
                                }
                            }
                            return None;
                        },
                    }
                    i = i + 1;
                }
                let ghost vals = values(subs);
                proof {
                    lemma_all_evaluable(subs);
                    lemma_values(subs);
                    lemma_values_nonneg(subs);
                    assert forall|k: int| 0 <= k < vals.len() implies #[trigger] vals[k]
                        == parts[k] by {
                        assert(vals[k] == value(subs[k]));
                    }
                }
                if p.type_id > 7 || p.type_id == 4 {
                    return None;
                }
                if p.type_id == 5 || p.type_id == 6 || p.type_id == 7 {
                    if parts.len() < 2 {
                        return None;
                    }
                    let a = parts[0];
                    let b = parts[1];
                    let hit = if p.type_id == 5 {
                        a > b
                    } else if p.type_id == 6 {
                        a < b
                    } else {
                        a == b
                    };
                    assert(vals[0] == a && vals[1] == b);
                    return Some(
                        if hit {
                            1
                        } else {
                            0
                        },
                    );
                }
                if (p.type_id == 2 || p.type_id == 3) && parts.len() < 1 {
                    return None;
                }
                let mut acc: u64 = if p.type_id == 1 {
                    1
                } else {
                    0
                };
                let mut i: usize = 0;
                while i < parts.len()
                    invariant
                        i <= parts.len(),
                        p.type_id <= 3,
                        *self == Packet::Op(*p),
                        subs == trees_of(p.ls@),
                        all_evaluable(subs),
                        vals == values(subs),
                        p.type_id == 2 || p.type_id == 3 ==> subs.len() >= 1,
                        vals.len() == parts.len(),
                        forall|k: int| 0 <= k < vals.len() ==> #[trigger] vals[k] == parts[k],
                        forall|k: int| 0 <= k < vals.len() ==> 0 <= #[trigger] vals[k],
                        p.type_id == 0 ==> acc == sum(vals.subrange(0, i as int)),
                        p.type_id == 1 ==> acc == product(vals.subrange(0, i as int))
                            && products_fit(vals.subrange(0, i as int)),
                        p.type_id == 2 && i > 0 ==> acc == least(vals.subrange(0, i as int)),
                        p.type_id == 3 && i > 0 ==> acc == greatest(vals.subrange(0, i as int)),
                    decreases parts.len() - i,
                {
                    proof {
                        assert(vals.subrange(0, i + 1).drop_last() =~= vals.subrange(0, i as int));
                        assert(vals.subrange(0, i + 1).last() == vals[i as int]);
                        assert(vals[i as int] == parts[i as int]);
                    }
                    let v = parts[i];
                    if p.type_id == 0 {
                        acc = match acc.checked_add(v) {
                            Some(t) => t,
                            None => {
                                proof {
                                    lemma_sum_prefix(vals, i + 1);
                                    assert(sum(vals.subrange(0, i + 1)) == acc + v);
                                }
                                return None;
                            },
                        };
                    } else if p.type_id == 1 {
                        acc = match acc.checked_mul(v) {
                            Some(t) => t,
                            None => {
                                proof {
                                    assert(product(vals.subrange(0, i + 1)) == acc * v);
                                    if products_fit(vals) {
                                        lemma_products_fit_prefix(vals, i + 1);
                                    }
                                }
                                return None;
                            },
                        };
                    } else if p.type_id == 2 {
                        if i == 0 || v < acc {
                            acc = v;
                        }
                    } else {
                        if i == 0 || v > acc {
                            acc = v;
                        }
                    }
                    i = i + 1;
                }
                assert(vals.subrange(0, i as int) =~= vals);
                Some(acc)
            },
        }
    }
}

impl Packet {
    /// Adds up the version numbers of this packet and of all packets in
    /// it.
    pub fn get_version_sum(&self) -> (r: u32)
        requires
            version_sum(tree_of(*self)) <= u32::MAX,
        ensures
            r == version_sum(tree_of(*self)),
        decreases self,
    {
        match self {
            Packet::Lit(l) => l.version as u32,
            Packet::Op(o) => {
                let ghost subs = trees_of(o.ls@);
                let mut acc: u32 = 0;
                let mut i: usize = 0;
                proof {
                    lemma_trees_of(o.ls@);
                }
                while i < o.ls.len()
                    invariant
                        i <= o.ls.len(),
                        subs == trees_of(o.ls@),
                        subs.len() == o.ls.len(),
                        forall|k: int| 0 <= k < subs.len() ==> #[trigger] subs[k] == tree_of(o.ls@[k]),
                        version_sums(subs) + o.version <= u32::MAX,
                        acc == version_sums(subs.subrange(0, i as int)),
                        *self == Packet::Op(*o),
                    decreases o.ls.len() - i,
                {
                    proof {
                        lemma_version_sums_prefix(subs, i + 1);
                        assert(subs.subrange(0, i + 1).drop_last() =~= subs.subrange(0, i as int));
                        assert(subs.subrange(0, i + 1).last() == tree_of(o.ls@[i as int]));
                        vstd::std_specs::vec::axiom_vec_index_decreases(o.ls, i as int);
                    }
                    assert(self->Op_0 == *o);
                    let part = o.ls[i].get_version_sum();
                    acc = acc + part;
                    i = i + 1;
                }
                assert(subs.subrange(0, i as int) =~= subs);
                acc + (o.version as u32)
            },
        }
    }

    /// Adds up the version numbers of this packet and of all packets in
    /// it. `None` when the sum leaves the range of `u32`.
    pub fn try_version_sum(&self) -> (r: Option<u32>)
        ensures
            r.is_some() == (version_sum(tree_of(*self)) <= u32::MAX),
            r matches Some(v) ==> v == version_sum(tree_of(*self)),
        decreases self,
    {
        match self {
            Packet::Lit(l) => Some(l.version as u32),
            Packet::Op(o) => {
                let ghost subs = trees_of(o.ls@);
                let mut acc: u32 = 0;
                let mut i: usize = 0;
                proof {
                    lemma_trees_of(o.ls@);
                }
                while i < o.ls.len()
                    invariant
                        i <= o.ls.len(),
                        subs == trees_of(o.ls@),
                        subs.len() == o.ls.len(),
                        forall|k: int| 0 <= k < subs.len() ==> #[trigger] subs[k] == tree_of(o.ls@[k]),
                        acc == version_sums(subs.subrange(0, i as int)),
                        *self == Packet::Op(*o),
                    decreases o.ls.len() - i,
                {
                    proof {
                        lemma_version_sums_prefix(subs, i + 1);
                        assert(subs.subrange(0, i + 1).drop_last() =~= subs.subrange(0, i as int));
                        assert(subs.subrange(0, i + 1).last() == tree_of(o.ls@[i as int]));
                        vstd::std_specs::vec::axiom_vec_index_decreases(o.ls, i as int);
                    }
                    assert(self->Op_0 == *o);
                    let part = match o.ls[i].try_version_sum() {
                        Some(part) => part,
                        None => {
                            return None;
                        },
                    };
                    acc = match acc.checked_add(part) {
                        Some(t) => t,
                        None => {
                            return None;
                        },
                    };
                    i = i + 1;
                }
                assert(subs.subrange(0, i as int) =~= subs);
                acc.checked_add(o.version as u32)
            },
        }
    }

    /// Evaluates the packet.
    pub fn exec(&self) -> (r: u64)
        requires
            evaluable(tree_of(*self)),
        ensures
            r == value(tree_of(*self)),
        decreases self,
    {
        match self {
            Packet::Lit(l) => l.val,
            Packet::Op(p) => {
                let ghost subs = trees_of(p.ls@);
                let ghost vals = values(subs);
                proof {
                    lemma_trees_of(p.ls@);
                    lemma_values(subs);
                    lemma_values_nonneg(subs);
                }
                if p.type_id == 5 || p.type_id == 6 || p.type_id == 7 {
                    proof {
                        assert(subs[0] == tree_of(p.ls@[0]) && subs[1] == tree_of(p.ls@[1]));
                        assert(evaluable(subs[0]) && evaluable(subs[1]));
                        assert(vals[0] == value(subs[0]) && vals[1] == value(subs[1]));
                        vstd::std_specs::vec::axiom_vec_index_decreases(p.ls, 0);
                        vstd::std_specs::vec::axiom_vec_index_decreases(p.ls, 1);
                    }
                    let a = p.ls[0].exec();
                    let b = p.ls[1].exec();
                    let hit = if p.type_id == 5 {
                        a > b
                    } else if p.type_id == 6 {
                        a < b
                    } else {
                        a == b
                    };
                    return if hit {
                        1
                    } else {
                        0
                    };
                }
                let mut acc: u64 = if p.type_id == 1 {
                    1
                } else {
                    0
                };
                let mut i: usize = 0;
                while i < p.ls.len()
                    invariant
                        i <= p.ls.len(),
                        *self == Packet::Op(*p),
                        p.type_id <= 3,
                        evaluable(tree_of(*self)),
                        subs == trees_of(p.ls@),
                        vals == values(subs),
                        subs.len() == p.ls.len(),
                        vals.len() == subs.len(),
                        forall|k: int| 0 <= k < subs.len() ==> #[trigger] subs[k] == tree_of(p.ls@[k]),
                        forall|k: int| 0 <= k < subs.len() ==> evaluable(#[trigger] subs[k]),
                        forall|k: int| 0 <= k < vals.len() ==> #[trigger] vals[k] == value(subs[k]),
                        forall|k: int| 0 <= k < vals.len() ==> 0 <= #[trigger] vals[k],
                        p.type_id == 0 ==> acc == sum(vals.subrange(0, i as int)),
                        p.type_id == 1 ==> acc == product(vals.subrange(0, i as int)),
                        p.type_id == 2 && i > 0 ==> acc == least(vals.subrange(0, i as int)),
                        p.type_id == 3 && i > 0 ==> acc == greatest(vals.subrange(0, i as int)),
                    decreases p.ls.len() - i,
                {
                    proof {
                        assert(vals.subrange(0, i + 1).drop_last() =~= vals.subrange(0, i as int));
                        assert(vals.subrange(0, i + 1).last() == vals[i as int]);
                        assert(evaluable(subs[i as int]));
                        assert(vals[i as int] == value(subs[i as int]));
                        if p.type_id == 0 {
                            lemma_sum_prefix(vals, i + 1);
                        }
                        if p.type_id == 1 {
                            lemma_products_fit_prefix(vals, i + 1);
                        }
                        vstd::std_specs::vec::axiom_vec_index_decreases(p.ls, i as int);
                    }
                    let v = p.ls[i].exec();
                    if p.type_id == 0 {
                        acc = acc + v;
                    } else if p.type_id == 1 {
                        acc = acc * v;
                    } else if p.type_id == 2 {
                        if i == 0 || v < acc {
                            acc = v;
                        }
                    } else {
                        if i == 0 || v > acc {
                            acc = v;
                        }
                    }
                    i = i + 1;
                }
                assert(vals.subrange(0, i as int) =~= vals);
                acc
            },
        }
    }
}

/// The number held by the bits of `bits` from `from` up to `to`.
pub open spec fn field(bits: Seq<bool>, from: int, to: int) -> nat {
    be_value(bits.subrange(from, to))
}

pub open spec fn pow2(n: nat) -> nat
    decreases n,
{
    if n == 0 {
        1
    } else {
        2 * pow2((n - 1) as nat)
    }
}

pub proof fn lemma_be_value_bound(bits: Seq<bool>)
    ensures
        be_value(bits) < pow2(bits.len()),
    decreases bits.len(),
{
    if bits.len() > 0 {
        lemma_be_value_bound(bits.drop_last());
    }
}

pub proof fn lemma_field_bound(bits: Seq<bool>, from: int, to: int)
    requires
        0 <= from <= to <= bits.len(),
        to - from <= 15,
    ensures
        field(bits, from, to) < pow2((to - from) as nat),
        pow2(3) == 8,
        pow2(4) == 16,
        pow2(11) == 2048,
        pow2(15) == 32768,
{
    lemma_be_value_bound(bits.subrange(from, to));
    reveal_with_fuel(pow2, 16);
}

/// The value of a literal whose groups begin at `pos`, when the groups
/// before gave `acc`: each group of five bits brings four bits of the
/// value, and its first bit tells whether another group follows.
pub open spec fn literal_spec(bits: Seq<bool>, pos: int, end: int, acc: u64) -> Option<(u64, int)>
    decreases end - pos,
{
    if pos < 0 || pos + 5 > end || end > bits.len() {
        None
    } else {
        let n = field(bits, pos + 1, pos + 5) as u64;
        let acc2 = (acc << 4) | n;
        if bits[pos] {
            literal_spec(bits, pos + 5, end, acc2)
        } else {
            Some((acc2, pos + 5))
        }
    }
}

/// The packet that begins at `pos` and lies before `end`, with the place
/// where it ends.
///
/// A packet has three bits of version and three of type. Type 4 is a
/// literal. Any other type is an operator: one bit tells how its parts are
/// counted, by their number (1, eleven bits) or by their length in bits
/// (0, fifteen bits).
pub open spec fn packet_spec(bits: Seq<bool>, pos: int, end: int) -> Option<(Tree, int)>
    decreases end - pos, 0int,
{
    if pos < 0 || pos + 6 > end || end > bits.len() {
        None
    } else {
        let version = field(bits, pos, pos + 3) as u8;
        let type_id = field(bits, pos + 3, pos + 6) as u8;
        if type_id == 4 {
            match literal_spec(bits, pos + 6, end, 0) {
                Some((val, p)) => Some((Tree::Lit { version, val }, p)),
                None => None,
            }
        } else if pos + 7 > end {
            None
        } else if bits[pos + 6] {
            if pos + 18 > end {
                None
            } else {
                match packets_n_spec(bits, pos + 18, end, field(bits, pos + 7, pos + 18)) {
                    Some((subs, p)) => Some((Tree::Op { version, type_id, subs }, p)),
                    None => None,
                }
            }
        } else {
            if pos + 22 > end {
                None
            } else {
                let size = field(bits, pos + 7, pos + 22) as int;
                if pos + 22 + size > end {
                    None
                } else {
                    match packets_all_spec(bits, pos + 22, pos + 22 + size) {
                        Some(subs) => Some((Tree::Op { version, type_id, subs }, pos + 22 + size)),
                        None => None,
                    }
                }
            }
        }
    }
}

/// The `n` packets that follow one another from `pos` on, with the place
/// where the last one ends.
pub open spec fn packets_n_spec(bits: Seq<bool>, pos: int, end: int, n: nat) -> Option<
    (Seq<Tree>, int),
>
    decreases end - pos, n + 1,
{
    if n == 0 {
        Some((seq![], pos))
    } else {
        match packet_spec(bits, pos, end) {
            Some((t, p)) => if pos < p <= end {
                match packets_n_spec(bits, p, end, (n - 1) as nat) {
                    Some((rest, q)) => Some((seq![t] + rest, q)),
                    None => None,
                }
            } else {
                None
            },
            None => None,
        }
    }
}

/// The packets that fill the bits from `pos` up to `end` exactly.
pub open spec fn packets_all_spec(bits: Seq<bool>, pos: int, end: int) -> Option<Seq<Tree>>
    decreases end - pos, 1int,
{
    if pos >= end {
        Some(seq![])
    } else {
        match packet_spec(bits, pos, end) {
            Some((t, p)) => if pos < p <= end {
                match packets_all_spec(bits, p, end) {
                    Some(rest) => Some(seq![t] + rest),
                    None => None,
                }
            } else {
                None
            },
            None => None,
        }
    }
}

/// Reads the packets that fill the bits from `pos` up to `end`. `None`
/// when the bits do not hold whole packets.
pub fn parse_all_packets(v: &Bits, pos: usize, end: usize) -> (r: Option<Vec<Packet>>)
    requires
        pos <= end <= bits_of(*v).len(),
    ensures
        match r {
            Some(ls) => packets_all_spec(bits_of(*v), pos as int, end as int) == Some(
                trees_of(ls@),
            ),
            None => packets_all_spec(bits_of(*v), pos as int, end as int) is None,
        },
    decreases end - pos, 1int,
{
    let ghost bits = bits_of(*v);
    let mut ls: Vec<Packet> = Vec::new();
    let mut p: usize = pos;
    while p != end
        invariant
            pos <= p <= end <= bits.len(),
            bits == bits_of(*v),
            packets_all_spec(bits, pos as int, end as int) == (match packets_all_spec(
                bits,
                p as int,
                end as int,
            ) {
                Some(rest) => Some(trees_of(ls@) + rest),
                None => None,
            }),
        decreases end - p,
    {
        match parse_single_packet(v, p, end) {
            Some((packet, q)) => {
                proof {
                    let t = tree_of(packet);
                    assert(ls@.push(packet).drop_last() =~= ls@);
                    match packets_all_spec(bits, q as int, end as int) {
                        Some(rest) => {
                            assert(trees_of(ls@) + (seq![t] + rest) =~= trees_of(ls@).push(t)
                                + rest);
                        },
                        None => {},
                    }
                }
                ls.push(packet);
                p = q;
            },
            None => {
                return None;
            },
        }
    }
    assert(trees_of(ls@) + Seq::<Tree>::empty() =~= trees_of(ls@));
    Some(ls)
}

/// Reads `n` packets from `pos` on, and tells where the last one ends.
pub fn parse_n_packets(v: &Bits, pos: usize, end: usize, n: usize) -> (r: Option<
    (Vec<Packet>, usize),
>)
    requires
        pos <= end <= bits_of(*v).len(),
    ensures
        match r {
            Some((ls, q)) => packets_n_spec(bits_of(*v), pos as int, end as int, n as nat) == Some(
                (trees_of(ls@), q as int),
            ) && pos <= q <= end,
            None => packets_n_spec(bits_of(*v), pos as int, end as int, n as nat) is None,
        },
    decreases end - pos, n + 1,
{
    let ghost bits = bits_of(*v);
    let mut ls: Vec<Packet> = Vec::new();
    let mut p: usize = pos;
    let mut k: usize = 0;
    while k < n
        invariant
            k <= n,
            pos <= p <= end <= bits.len(),
            bits == bits_of(*v),
            packets_n_spec(bits, pos as int, end as int, n as nat) == (match packets_n_spec(
                bits,
                p as int,
                end as int,
                (n - k) as nat,
            ) {
                Some((rest, q)) => Some((trees_of(ls@) + rest, q)),
                None => None,
            }),
        decreases n - k,
    {
        match parse_single_packet(v, p, end) {
            Some((packet, q)) => {
                proof {
                    let t = tree_of(packet);
                    assert(ls@.push(packet).drop_last() =~= ls@);
                    match packets_n_spec(bits, q as int, end as int, (n - k - 1) as nat) {
                        Some((rest, e)) => {
                            assert(trees_of(ls@) + (seq![t] + rest) =~= trees_of(ls@).push(t)
                                + rest);
                        },
                        None => {},
                    }
                }
                ls.push(packet);
                p = q;
            },
            None => {
                return None;
            },
        }
        k = k + 1;
    }
    assert(trees_of(ls@) + Seq::<Tree>::empty() =~= trees_of(ls@));
    Some((ls, p))
}

/// Reads the packet that begins at `pos` and lies before `end`, and tells
/// where it ends. `None` when the bits run out before the packet does.
pub fn parse_single_packet(v: &Bits, pos: usize, end: usize) -> (r: Option<(Packet, usize)>)
    requires
        pos <= end <= bits_of(*v).len(),
    ensures
        match r {
            Some((p, q)) => packet_spec(bits_of(*v), pos as int, end as int) == Some(
                (tree_of(p), q as int),
            ) && pos < q <= end,
            None => packet_spec(bits_of(*v), pos as int, end as int) is None,
        },
    decreases end - pos, 0int,
{
    let ghost bits = bits_of(*v);
    if end - pos < 6 {
        return None;
    }
    proof {
        lemma_field_bound(bits, pos as int, pos + 3);
        lemma_field_bound(bits, pos + 3, pos + 6);
    }
    let version: u8 = load_be(v, pos, pos + 3) as u8;
    let type_id: u8 = load_be(v, pos + 3, pos + 6) as u8;
    let body: usize = pos + 6;
    if type_id == 4 {
        let mut acc: u64 = 0;
        let mut p: usize = body;
        loop
            invariant
                body <= p <= end <= bits.len(),
                body == pos + 6,
                bits == bits_of(*v),
                version == field(bits, pos as int, pos + 3) as u8,
                type_id == field(bits, pos + 3, pos + 6) as u8,
                type_id == 4,
                literal_spec(bits, body as int, end as int, 0) == literal_spec(
                    bits,
                    p as int,
                    end as int,
                    acc,
                ),
            decreases end - p,
        {
            if end - p < 5 {
                return None;
            }
            proof {
                lemma_field_bound(bits, p + 1, p + 5);
            }
            let should_stop = !bit_at(v, p);
            let n: u64 = load_be(v, p + 1, p + 5);
            acc = (acc << 4) | n;
            p = p + 5;
            if should_stop {
                return Some((Packet::Lit(PacketLit { version, val: acc }), p));
            }
        }
    } else {
        if end - body < 1 {
            return None;
        }
        if bit_at(v, body) {
            if end - body < 12 {
                return None;
            }
            proof {
                lemma_field_bound(bits, body + 1, body + 12);
            }
            let n: usize = load_be(v, body + 1, body + 12) as usize;
            match parse_n_packets(v, body + 12, end, n) {
                Some((ls, rest)) => Some((Packet::Op(PacketOp { version, type_id, ls }), rest)),
                None => None,
            }
        } else {
            if end - body < 16 {
                return None;
            }
            proof {
                lemma_field_bound(bits, body + 1, body + 16);
            }
            let size: usize = load_be(v, body + 1, body + 16) as usize;
            let start: usize = body + 16;
            if end - start < size {
                return None;
            }
            match parse_all_packets(v, start, start + size) {
                Some(ls) => Some((Packet::Op(PacketOp { version, type_id, ls }), start + size)),
                None => None,
            }
        }
    }
}

/// The packet that the bits begin with.
pub fn parse_packet(v: &Bits) -> (r: Option<Packet>)
    ensures
        match r {
            Some(p) => packet_spec(bits_of(*v), 0, bits_of(*v).len() as int) matches Some(t)
                && t.0 == tree_of(p),
            None => packet_spec(bits_of(*v), 0, bits_of(*v).len() as int) is None,
        },
{
    match parse_single_packet(v, 0, bits_len(v)) {
        Some((p, _)) => Some(p),
        None => None,
    }
}

} // verus!
