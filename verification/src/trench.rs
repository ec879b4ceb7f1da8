use vstd::prelude::*;

verus! {

/// An image without end: it holds the places that differ from the
/// background, and whether the background is lit.
pub struct Image {
    pub ls: Vec<(i32, i32)>,
    pub is_invert: bool,
}

/// Whether the list holds the place `(y, x)`.
#[verifier::opaque]
pub open spec fn holds(ls: Seq<(i32, i32)>, y: int, x: int) -> bool {
    exists|i: int| 0 <= i < ls.len() && (#[trigger] ls[i]).0 == y && ls[i].1 == x
}

/// Whether the place `(y, x)` of the image is lit.
pub open spec fn lit(ls: Seq<(i32, i32)>, is_invert: bool, y: int, x: int) -> bool {
    holds(ls, y, x) != is_invert
}

pub open spec fn bit(b: bool) -> int {
    if b {
        1
    } else {
        0
    }
}

/// The number that the nine places around `(y, x)` spell, read row by
/// row as binary digits, a lit place being 1.
pub open spec fn area(pixel: spec_fn(int, int) -> bool, y: int, x: int) -> int {
    ((((((((bit(pixel(y - 1, x - 1)) * 2 + bit(pixel(y - 1, x))) * 2 + bit(pixel(y - 1, x + 1)))
        * 2 + bit(pixel(y, x - 1))) * 2 + bit(pixel(y, x))) * 2 + bit(pixel(y, x + 1))) * 2 + bit(
        pixel(y + 1, x - 1),
    )) * 2 + bit(pixel(y + 1, x))) * 2 + bit(pixel(y + 1, x + 1)))
}

/// The image as a function from places to light.
pub open spec fn pixels(ls: Seq<(i32, i32)>, is_invert: bool) -> spec_fn(int, int) -> bool {
    |y: int, x: int| lit(ls, is_invert, y, x)
}

/// Whether every place that the list holds lies within `bound` of the
/// origin.
pub open spec fn within(ls: Seq<(i32, i32)>, bound: int) -> bool {
    forall|i: int|
        0 <= i < ls.len() ==> -bound <= (#[trigger] ls[i]).0 <= bound && -bound <= ls[i].1 <= bound
}

/// Whether the list holds a place that touches `(y, x)`.
#[verifier::opaque]
pub open spec fn touches(ls: Seq<(i32, i32)>, y: int, x: int) -> bool {
    exists|i: int|
        0 <= i < ls.len() && y - 1 <= (#[trigger] ls[i]).0 <= y + 1 && x - 1 <= ls[i].1 <= x + 1
}

/// What the list holds after one more place has been put at its end.
pub proof fn lemma_holds_push(ls: Seq<(i32, i32)>, p: (i32, i32), y: int, x: int)
    ensures
        holds(ls.push(p), y, x) <==> holds(ls, y, x) || (p.0 == y && p.1 == x),
        touches(ls.push(p), y, x) <==> touches(ls, y, x) || (y - 1 <= p.0 <= y + 1 && x - 1 <= p.1
            <= x + 1),
{
    reveal(holds);
    reveal(touches);
    let t = ls.push(p);
    if holds(ls, y, x) {
        let i = choose|i: int| 0 <= i < ls.len() && (#[trigger] ls[i]).0 == y && ls[i].1 == x;
        assert(t[i].0 == y && t[i].1 == x);
    }
    if p.0 == y && p.1 == x {
        assert(t[t.len() - 1].0 == y && t[t.len() - 1].1 == x);
    }
    if holds(t, y, x) {
        let i = choose|i: int| 0 <= i < t.len() && (#[trigger] t[i]).0 == y && t[i].1 == x;
        if i < ls.len() {
            assert(ls[i].0 == y && ls[i].1 == x);
        }
    }
    if touches(ls, y, x) {
        let i = choose|i: int|
            0 <= i < ls.len() && y - 1 <= (#[trigger] ls[i]).0 <= y + 1 && x - 1 <= ls[i].1 <= x
                + 1;
        assert(y - 1 <= t[i].0 <= y + 1 && x - 1 <= t[i].1 <= x + 1);
    }
    if y - 1 <= p.0 <= y + 1 && x - 1 <= p.1 <= x + 1 {
        assert(y - 1 <= t[t.len() - 1].0 <= y + 1 && x - 1 <= t[t.len() - 1].1 <= x + 1);
    }
    if touches(t, y, x) {
        let i = choose|i: int|
            0 <= i < t.len() && y - 1 <= (#[trigger] t[i]).0 <= y + 1 && x - 1 <= t[i].1 <= x + 1;
        if i < ls.len() {
            assert(y - 1 <= ls[i].0 <= y + 1 && x - 1 <= ls[i].1 <= x + 1);
        }
    }
}

pub proof fn lemma_empty_holds(y: int, x: int)
    ensures
        !holds(Seq::<(i32, i32)>::empty(), y, x),
        !touches(Seq::<(i32, i32)>::empty(), y, x),
{
    reveal(holds);
    reveal(touches);
}

/// A list that holds a place once more than another list holds nothing
/// twice if the other does not and the place is new.
pub proof fn lemma_push_fresh(ls: Seq<(i32, i32)>, p: (i32, i32))
    requires
        ls.no_duplicates(),
        !holds(ls, p.0 as int, p.1 as int),
    ensures
        ls.push(p).no_duplicates(),
{
    reveal(holds);
    let t = ls.push(p);
    assert forall|a: int, b: int| 0 <= a < b < t.len() implies t[a] != t[b] by {
        if b == t.len() - 1 {
            assert(ls[a] == t[a]);
            if ls[a] == p {
                assert(ls[a].0 == p.0 && ls[a].1 == p.1);
            }
        }
    }
}

pub proof fn lemma_held_within(ls: Seq<(i32, i32)>, b: int, y: int, x: int)
    requires
        within(ls, b),
    ensures
        holds(ls, y, x) ==> -b <= y <= b && -b <= x <= b,
        touches(ls, y, x) ==> -b - 1 <= y <= b + 1 && -b - 1 <= x <= b + 1,
{
    reveal(holds);
    reveal(touches);
    if holds(ls, y, x) {
        let i = choose|i: int| 0 <= i < ls.len() && (#[trigger] ls[i]).0 == y && ls[i].1 == x;
        assert(-b <= ls[i].0 <= b);
    }
    if touches(ls, y, x) {
        let i = choose|i: int|
            0 <= i < ls.len() && y - 1 <= (#[trigger] ls[i]).0 <= y + 1 && x - 1 <= ls[i].1 <= x
                + 1;
        assert(-b <= ls[i].0 <= b);
    }
}

pub proof fn lemma_element_held(ls: Seq<(i32, i32)>, i: int)
    requires
        0 <= i < ls.len(),
    ensures
        holds(ls, ls[i].0 as int, ls[i].1 as int),
{
    reveal(holds);
}

pub proof fn lemma_not_held(ls: Seq<(i32, i32)>, y: int, x: int, cy: int, cx: int)
    requires
        !touches(ls, y, x),
        y - 1 <= cy <= y + 1,
        x - 1 <= cx <= x + 1,
    ensures
        !holds(ls, cy, cx),
{
    reveal(holds);
    reveal(touches);
    if holds(ls, cy, cx) {
        let i = choose|i: int| 0 <= i < ls.len() && (#[trigger] ls[i]).0 == cy && ls[i].1 == cx;
        assert(y - 1 <= ls[i].0 <= y + 1 && x - 1 <= ls[i].1 <= x + 1);
    }
}

/// Far from every place that the list holds, the nine places around spell
/// 0 on a dark background and 511 on a lit one.
pub proof fn lemma_blank(ls: Seq<(i32, i32)>, is_invert: bool, y: int, x: int)
    requires
        !touches(ls, y, x),
    ensures
        area(pixels(ls, is_invert), y, x) == (if is_invert {
            511int
        } else {
            0int
        }),
{
    lemma_not_held(ls, y, x, y - 1, x - 1);
    lemma_not_held(ls, y, x, y - 1, x);
    lemma_not_held(ls, y, x, y - 1, x + 1);
    lemma_not_held(ls, y, x, y, x - 1);
    lemma_not_held(ls, y, x, y, x);
    lemma_not_held(ls, y, x, y, x + 1);
    lemma_not_held(ls, y, x, y + 1, x - 1);
    lemma_not_held(ls, y, x, y + 1, x);
    lemma_not_held(ls, y, x, y + 1, x + 1);
}

/// Whether the place `(y, x)` differs from the new background after a
/// step of enhancement.
pub open spec fn wanted(
    ls: Seq<(i32, i32)>,
    is_invert: bool,
    table: Seq<bool>,
    invert: bool,
    y: int,
    x: int,
) -> bool {
    table[area(pixels(ls, is_invert), y, x)] != invert
}

fn has_point(ls: &Vec<(i32, i32)>, y: i32, x: i32) -> (r: bool)
    ensures
        r == holds(ls@, y as int, x as int),
{
    reveal(holds);
    let mut i: usize = 0;
    while i < ls.len()
        invariant
            i <= ls.len(),
            forall|k: int| 0 <= k < i ==> !((#[trigger] ls@[k]).0 == y && ls@[k].1 == x),
        decreases ls.len() - i,
    {
        if ls[i].0 == y && ls[i].1 == x {
            proof {
                reveal(holds);
            }
            return true;
        }
        i = i + 1;
    }
    proof {
        reveal(holds);
    }
    false
}

/// The number that the nine places around `pos` spell in a list of lit
/// places on a dark background.
pub fn number_in_area(img: &Vec<(i32, i32)>, pos: (i32, i32)) -> (r: usize)
    requires
        i32::MIN < pos.0 < i32::MAX,
        i32::MIN < pos.1 < i32::MAX,
    ensures
        r == area(pixels(img@, false), pos.0 as int, pos.1 as int),
        r < 512,
{
    let a = light_of(img, false, pos.0 - 1, pos.1 - 1);
    let b = light_of(img, false, pos.0 - 1, pos.1);
    let c = light_of(img, false, pos.0 - 1, pos.1 + 1);
    let d = light_of(img, false, pos.0, pos.1 - 1);
    let e = light_of(img, false, pos.0, pos.1);
    let f = light_of(img, false, pos.0, pos.1 + 1);
    let g = light_of(img, false, pos.0 + 1, pos.1 - 1);
    let h = light_of(img, false, pos.0 + 1, pos.1);
    let i = light_of(img, false, pos.0 + 1, pos.1 + 1);
    (((((((a * 2 + b) * 2 + c) * 2 + d) * 2 + e) * 2 + f) * 2 + g) * 2 + h) * 2 + i
}

fn light_of(ls: &Vec<(i32, i32)>, is_invert: bool, y: i32, x: i32) -> (r: usize)
    ensures
        r == bit(pixels(ls@, is_invert)(y as int, x as int)),
        r <= 1,
{
    if has_point(ls, y, x) ^ is_invert {
        1
    } else {
        0
    }
}

/// The light of the place `(y, x)` after `n` steps of enhancement with
/// the table `table`: each step looks the number spelt by the nine places
/// around a place up in the table.
pub open spec fn pixel_after(
    ls: Seq<(i32, i32)>,
    is_invert: bool,
    table: Seq<bool>,
    n: nat,
    y: int,
    x: int,
) -> bool
    decreases n,
{
    if n == 0 {
        lit(ls, is_invert, y, x)
    } else {
        table[area(
            |a: int, b: int| pixel_after(ls, is_invert, table, (n - 1) as nat, a, b),
            y,
            x,
        )]
    }
}

/// Two images that agree around a place spell the same number there.
pub proof fn lemma_area_same(f: spec_fn(int, int) -> bool, g: spec_fn(int, int) -> bool, y: int, x: int)
    requires
        forall|a: int, b: int| #[trigger] f(a, b) == g(a, b),
    ensures
        area(f, y, x) == area(g, y, x),
{
    assert(f(y - 1, x - 1) == g(y - 1, x - 1));
    assert(f(y - 1, x) == g(y - 1, x));
    assert(f(y - 1, x + 1) == g(y - 1, x + 1));
    assert(f(y, x - 1) == g(y, x - 1));
    assert(f(y, x) == g(y, x));
    assert(f(y, x + 1) == g(y, x + 1));
    assert(f(y + 1, x - 1) == g(y + 1, x - 1));
    assert(f(y + 1, x) == g(y + 1, x));
    assert(f(y + 1, x + 1) == g(y + 1, x + 1));
}

/// An image that shows the `k`-th enhancement of another shows, enhanced
/// once more, its next enhancement.
pub proof fn lemma_step(
    ls0: Seq<(i32, i32)>,
    inv0: bool,
    table: Seq<bool>,
    k: nat,
    ls1: Seq<(i32, i32)>,
    inv1: bool,
    ls2: Seq<(i32, i32)>,
    inv2: bool,
)
    requires
        forall|y: int, x: int| #[trigger]
            lit(ls1, inv1, y, x) == pixel_after(ls0, inv0, table, k, y, x),
        forall|y: int, x: int| #[trigger]
            lit(ls2, inv2, y, x) == table[area(pixels(ls1, inv1), y, x)],
    ensures
        forall|y: int, x: int| #[trigger]
            lit(ls2, inv2, y, x) == pixel_after(ls0, inv0, table, k + 1, y, x),
{
    let f = pixels(ls1, inv1);
    let g = |a: int, b: int| pixel_after(ls0, inv0, table, k, a, b);
    assert forall|a: int, b: int| #[trigger] f(a, b) == g(a, b) by {
        assert(lit(ls1, inv1, a, b) == pixel_after(ls0, inv0, table, k, a, b));
    }
    assert forall|y: int, x: int| #[trigger]
        lit(ls2, inv2, y, x) == pixel_after(ls0, inv0, table, k + 1, y, x) by {
        lemma_area_same(f, g, y, x);
        assert(lit(ls2, inv2, y, x) == table[area(f, y, x)]);
    }
}

impl Image {
    /// The image of the lit places `points` on a dark background.
    pub fn from_light_list(points: &Vec<(i32, i32)>) -> (r: Image)
        ensures
            !r.is_invert,
            r.ls@.no_duplicates(),
            forall|y: int, x: int| #[trigger] holds(r.ls@, y, x) <==> holds(points@, y, x),
    {
        let mut ls: Vec<(i32, i32)> = Vec::new();
        let mut i: usize = 0;
        proof {
            assert forall|y: int, x: int| #[trigger]
                holds(ls@, y, x) <==> holds(points@.subrange(0, 0), y, x) by {
                lemma_empty_holds(y, x);
                assert(points@.subrange(0, 0) =~= Seq::<(i32, i32)>::empty());
                assert(ls@ =~= Seq::<(i32, i32)>::empty());
            }
        }
        while i < points.len()
            invariant
                i <= points.len(),
                ls@.no_duplicates(),
                forall|y: int, x: int| #[trigger]
                    holds(ls@, y, x) <==> holds(points@.subrange(0, i as int), y, x),
            decreases points.len() - i,
        {
            let p = points[i];
            let ghost before = ls@;
            let ghost seen = points@.subrange(0, i as int);
            let fresh = !has_point(&ls, p.0, p.1);
            if fresh {
                proof {
                    lemma_push_fresh(before, p);
                }
                ls.push(p);
            }
            proof {
                assert(points@.subrange(0, i + 1) =~= seen.push(p));
                assert forall|y: int, x: int| #[trigger]
                    holds(ls@, y, x) <==> holds(points@.subrange(0, i + 1), y, x) by {
                    lemma_holds_push(seen, p, y, x);
                    lemma_holds_push(before, p, y, x);
                    assert(holds(before, y, x) <==> holds(seen, y, x));
                }
            }
            i = i + 1;
        }
        assert(points@.subrange(0, i as int) =~= points@);
        Image { ls, is_invert: false }
    }

    /// Whether the place `(y, x)` is lit.
    pub fn read_pixel(&self, y: i32, x: i32) -> (r: bool)
        ensures
            r == lit(self.ls@, self.is_invert, y as int, x as int),
    {
        has_point(&self.ls, y, x) ^ self.is_invert
    }

    /// The number that nine places of background spell.
    pub fn get_blank_id(&self) -> (r: usize)
        ensures
            r == (if self.is_invert {
                511int
            } else {
                0int
            }),
    {
        if self.is_invert {
            511
        } else {
            0
        }
    }

    /// The number that the nine places around `pos` spell.
    pub fn number_in_area(&self, pos: (i32, i32)) -> (r: usize)
        requires
            i32::MIN < pos.0 < i32::MAX,
            i32::MIN < pos.1 < i32::MAX,
        ensures
            r == area(pixels(self.ls@, self.is_invert), pos.0 as int, pos.1 as int),
            r < 512,
    {
        let a = light_of(&self.ls, self.is_invert, pos.0 - 1, pos.1 - 1);
        let b = light_of(&self.ls, self.is_invert, pos.0 - 1, pos.1);
        let c = light_of(&self.ls, self.is_invert, pos.0 - 1, pos.1 + 1);
        let d = light_of(&self.ls, self.is_invert, pos.0, pos.1 - 1);
        let e = light_of(&self.ls, self.is_invert, pos.0, pos.1);
        let f = light_of(&self.ls, self.is_invert, pos.0, pos.1 + 1);
        let g = light_of(&self.ls, self.is_invert, pos.0 + 1, pos.1 - 1);
        let h = light_of(&self.ls, self.is_invert, pos.0 + 1, pos.1);
        let i = light_of(&self.ls, self.is_invert, pos.0 + 1, pos.1 + 1);
        (((((((a * 2 + b) * 2 + c) * 2 + d) * 2 + e) * 2 + f) * 2 + g) * 2 + h) * 2 + i
    }

    fn consider(&self, table: &Vec<bool>, invert: bool, new_img: &mut Vec<(i32, i32)>, c: (
        i32,
        i32,
    ))
        requires
            table.len() >= 512,
            i32::MIN < c.0 < i32::MAX,
            i32::MIN < c.1 < i32::MAX,
            old(new_img)@.no_duplicates(),
        ensures
            final(new_img)@.no_duplicates(),
            forall|y: int, x: int| #[trigger]
                holds(final(new_img)@, y, x) <==> holds(old(new_img)@, y, x) || (y == c.0 && x
                    == c.1 && wanted(self.ls@, self.is_invert, table@, invert, y, x)),
    {
        let ghost before = new_img@;
        let fresh = (table[self.number_in_area(c)] ^ invert) && !has_point(new_img, c.0, c.1);
        if fresh {
            proof {
                lemma_push_fresh(before, c);
            }
            new_img.push(c);
        }
        proof {
            assert forall|y: int, x: int| #[trigger]
                holds(new_img@, y, x) <==> holds(before, y, x) || (y == c.0 && x == c.1 && wanted(
                    self.ls@,
                    self.is_invert,
                    table@,
                    invert,
                    y,
                    x,
                )) by {
                lemma_holds_push(before, c, y, x);
            }
        }
    }

    /// One step of enhancement: every place of the new image has the
    /// light that the table gives for the number spelt by the nine places
    /// around it in the old one.
    pub fn enhance(&self, table: &Vec<bool>) -> (r: Image)
        requires
            table.len() >= 512,
            within(self.ls@, 0x4000_0000),
        ensures
            r.ls@.no_duplicates(),
            forall|b: int| within(self.ls@, b) ==> within(r.ls@, b + 1),
            forall|y: int, x: int| #[trigger]
                lit(r.ls@, r.is_invert, y, x) == table[area(
                    pixels(self.ls@, self.is_invert),
                    y,
                    x,
                )],
    {
        let invert: bool = table[self.get_blank_id()];
        let mut new_img: Vec<(i32, i32)> = Vec::new();
        let mut i: usize = 0;
        proof {
            assert forall|y: int, x: int| #[trigger]
                holds(new_img@, y, x) <==> touches(self.ls@.subrange(0, 0), y, x) && wanted(
                    self.ls@,
                    self.is_invert,
                    table@,
                    invert,
                    y,
                    x,
                ) by {
                lemma_empty_holds(y, x);
                assert(self.ls@.subrange(0, 0) =~= Seq::<(i32, i32)>::empty());
                assert(new_img@ =~= Seq::<(i32, i32)>::empty());
            }
        }
        while i < self.ls.len()
            invariant
                i <= self.ls.len(),
                table.len() >= 512,
                within(self.ls@, 0x4000_0000),
                invert == table[(if self.is_invert {
                    511int
                } else {
                    0int
                })],
                new_img@.no_duplicates(),
                forall|y: int, x: int| #[trigger]
                    holds(new_img@, y, x) <==> touches(self.ls@.subrange(0, i as int), y, x)
                        && wanted(self.ls@, self.is_invert, table@, invert, y, x),
            decreases self.ls.len() - i,
        {
            let p = self.ls[i];
            assert(-0x4000_0000 <= self.ls@[i as int].0 <= 0x4000_0000);
            let ghost seen = self.ls@.subrange(0, i as int);
            let ghost before = new_img@;
            self.consider(table, invert, &mut new_img, (p.0 - 1, p.1 - 1));
            self.consider(table, invert, &mut new_img, (p.0 - 1, p.1));
            self.consider(table, invert, &mut new_img, (p.0 - 1, p.1 + 1));
            self.consider(table, invert, &mut new_img, (p.0, p.1 - 1));
            self.consider(table, invert, &mut new_img, (p.0, p.1));
            self.consider(table, invert, &mut new_img, (p.0, p.1 + 1));
            self.consider(table, invert, &mut new_img, (p.0 + 1, p.1 - 1));
            self.consider(table, invert, &mut new_img, (p.0 + 1, p.1));
            self.consider(table, invert, &mut new_img, (p.0 + 1, p.1 + 1));
            proof {
                assert(self.ls@.subrange(0, i + 1) =~= seen.push(p));
                assert forall|y: int, x: int| #[trigger]
                    holds(new_img@, y, x) <==> touches(self.ls@.subrange(0, i + 1), y, x)
                        && wanted(self.ls@, self.is_invert, table@, invert, y, x) by {
                    lemma_holds_push(seen, p, y, x);
                    assert(holds(before, y, x) <==> touches(seen, y, x) && wanted(
                        self.ls@,
                        self.is_invert,
                        table@,
                        invert,
                        y,
                        x,
                    ));
                }
            }
            i = i + 1;
        }
        let r = Image { ls: new_img, is_invert: invert };
        proof {
            assert(self.ls@.subrange(0, i as int) =~= self.ls@);
            assert forall|y: int, x: int| #[trigger]
                lit(r.ls@, r.is_invert, y, x) == table[area(
                    pixels(self.ls@, self.is_invert),
                    y,
                    x,
                )] by {
                assert(holds(r.ls@, y, x) <==> touches(self.ls@, y, x) && wanted(
                    self.ls@,
                    self.is_invert,
                    table@,
                    invert,
                    y,
                    x,
                ));
                if !touches(self.ls@, y, x) {
                    lemma_blank(self.ls@, self.is_invert, y, x);
                }
            }
            assert forall|b: int| within(self.ls@, b) implies within(r.ls@, b + 1) by {
                assert forall|k: int| 0 <= k < r.ls.len() implies -(b + 1) <= (#[trigger] r.ls@[k]).0
                    <= b + 1 && -(b + 1) <= r.ls@[k].1 <= b + 1 by {
                    let y = r.ls@[k].0 as int;
                    let x = r.ls@[k].1 as int;
                    lemma_element_held(r.ls@, k);
                    assert(holds(r.ls@, y, x) <==> touches(self.ls@, y, x) && wanted(
                        self.ls@,
                        self.is_invert,
                        table@,
                        invert,
                        y,
                        x,
                    ));
                    lemma_held_within(self.ls@, b, y, x);
                }
            }
        }
        r
    }

    /// The number of lit places of an image on a dark background.
    pub fn get_count(&self) -> (r: usize)
        requires
            !self.is_invert,
        ensures
            r == self.ls.len(),
    {
        self.ls.len()
    }

    /// `n` steps of enhancement.
    pub fn enhance_count(&mut self, table: &Vec<bool>, n: usize)
        requires
            table.len() >= 512,
            exists|b: int| within(old(self).ls@, b) && b + n <= 0x4000_0000,
        ensures
            final(self).ls@.no_duplicates() || n == 0,
            forall|y: int, x: int| #[trigger]
                lit(final(self).ls@, final(self).is_invert, y, x) == pixel_after(
                    old(self).ls@,
                    old(self).is_invert,
                    table@,
                    n as nat,
                    y,
                    x,
                ),
    {
        let ghost b0 = choose|b: int| within(self.ls@, b) && b + n <= 0x4000_0000;
        let mut k: usize = 0;
        while k < n
            invariant
                k <= n,
                table.len() >= 512,
                within(self.ls@, b0 + k),
                b0 + n <= 0x4000_0000,
                self.ls@.no_duplicates() || k == 0,
                forall|y: int, x: int| #[trigger]
                    lit(self.ls@, self.is_invert, y, x) == pixel_after(
                        old(self).ls@,
                        old(self).is_invert,
                        table@,
                        k as nat,
                        y,
                        x,
                    ),
            decreases n - k,
        {
            let ghost before_ls = self.ls@;
            let ghost before_inv = self.is_invert;
            proof {
                assert forall|i: int| 0 <= i < self.ls.len() implies -0x4000_0000 <= (
                #[trigger] self.ls@[i]).0 <= 0x4000_0000 && -0x4000_0000 <= self.ls@[i].1
                    <= 0x4000_0000 by {
                    assert(-(b0 + k) <= self.ls@[i].0 <= b0 + k);
                }
            }
            let next = self.enhance(table);
            proof {
                lemma_step(
                    old(self).ls@,
                    old(self).is_invert,
                    table@,
                    k as nat,
                    before_ls,
                    before_inv,
                    next.ls@,
                    next.is_invert,
                );
            }
            *self = next;
            k = k + 1;
        }
    }
}

/// Which characters of a line are `#`.
pub fn into_bool_array(s: &Vec<char>) -> (r: Vec<bool>)
    ensures
        r.len() == s.len(),
        forall|i: int| 0 <= i < r.len() ==> #[trigger] r[i] == (s[i] == '#'),
{
    let mut out: Vec<bool> = Vec::new();
    let mut i: usize = 0;
    while i < s.len()
        invariant
            i <= s.len(),
            out.len() == i,
            forall|k: int| 0 <= k < i ==> #[trigger] out[k] == (s[k] == '#'),
        decreases s.len() - i,
    {
        out.push(s[i] == '#');
        i = i + 1;
    }
    out
}

/// Whether the map of the lines after the second has a `#` at row `y`
/// and column `x`.
pub open spec fn drawn(lines: Seq<Vec<char>>, y: int, x: int) -> bool {
    0 <= y < lines.len() - 2 && 0 <= x < lines[y + 2].len() && lines[y + 2][x] == '#'
}

/// Whether every row and column of the map can be numbered in `i32`.
pub open spec fn numbered(lines: Seq<Vec<char>>) -> bool {
    lines.len() - 2 <= 0x8000_0000 && forall|i: int|
        2 <= i < lines.len() ==> (#[trigger] lines[i]).len() <= 0x8000_0000
}

/// Reads the table from the first line and the image from the lines after
/// the second. `None` when there are fewer than two lines or a place
/// does not fit in `i32`.
pub fn read_data(lines: &Vec<Vec<char>>) -> (r: Option<(Image, Vec<bool>)>)
    ensures
        r is Some <==> lines.len() >= 2 && numbered(lines@),
        r matches Some(v) ==> {
            &&& v.1.len() == lines[0].len()
            &&& forall|i: int| 0 <= i < v.1.len() ==> #[trigger] v.1[i] == (lines[0][i] == '#')
            &&& !v.0.is_invert
            &&& v.0.ls@.no_duplicates()
            &&& forall|y: int, x: int| #[trigger] holds(v.0.ls@, y, x) <==> drawn(lines@, y, x)
        },
{
    if lines.len() < 2 {
        return None;
    }
    let table = into_bool_array(&lines[0]);
    let mut points: Vec<(i32, i32)> = Vec::new();
    let mut row: usize = 0;
    proof {
        assert forall|y: int, x: int| #[trigger]
            holds(points@, y, x) <==> (drawn(lines@, y, x) && y < 0) by {
            lemma_empty_holds(y, x);
            assert(points@ =~= Seq::<(i32, i32)>::empty());
        }
    }
    while row + 2 < lines.len()
        invariant
            row + 2 <= lines.len(),
            row <= 0x8000_0000,
            forall|i: int| 2 <= i < row + 2 ==> (#[trigger] lines[i]).len() <= 0x8000_0000,
            forall|y: int, x: int| #[trigger]
                holds(points@, y, x) <==> (drawn(lines@, y, x) && y < row),
        decreases lines.len() - row,
    {
        if row > 0x7fff_ffff {
            return None;
        }
        let line = &lines[row + 2];
        let mut col: usize = 0;
        while col < line.len()
            invariant
                col <= line.len(),
                col <= 0x8000_0000,
                row + 2 < lines.len(),
                row <= 0x7fff_ffff,
                forall|i: int| 2 <= i < row + 2 ==> (#[trigger] lines[i]).len() <= 0x8000_0000,
                *line == lines@[row + 2],
                forall|y: int, x: int| #[trigger]
                    holds(points@, y, x) <==> (drawn(lines@, y, x) && (y < row || (y == row && x
                        < col))),
            decreases line.len() - col,
        {
            if col > 0x7fff_ffff {
                assert(lines[row + 2].len() > 0x8000_0000);
                return None;
            }
            let ghost before = points@;
            if line[col] == '#' {
                points.push((row as i32, col as i32));
            }
            proof {
                assert forall|y: int, x: int| #[trigger]
                    holds(points@, y, x) <==> (drawn(lines@, y, x) && (y < row || (y == row && x
                        < col + 1))) by {
                    lemma_holds_push(before, (row as i32, col as i32), y, x);
                    assert(holds(before, y, x) <==> (drawn(lines@, y, x) && (y < row || (y == row
                        && x < col))));
                }
            }
            col = col + 1;
        }
        row = row + 1;
    }
    let img = Image::from_light_list(&points);
    proof {
        assert forall|y: int, x: int| #[trigger] holds(img.ls@, y, x) <==> drawn(lines@, y, x) by {
            assert(holds(points@, y, x) <==> (drawn(lines@, y, x) && y < row));
        }
    }
    Some((img, table))
}

} // verus!
