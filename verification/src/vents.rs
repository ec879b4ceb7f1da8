use crate::pattern;
use crate::text;
use vstd::prelude::*;

verus! {

/// A point of the sea floor, or the step from one point to another.
#[derive(Copy, Clone, PartialEq, Eq, Structural, Debug)]
pub struct Vec2i {
    pub x: i32,
    pub y: i32,
}

/// The greatest common divisor by Euclid's rule.
pub open spec fn gcd_spec(a: nat, b: nat) -> nat
    decreases b,
{
    if b == 0 {
        a
    } else {
        gcd_spec(b, a % b)
    }
}

pub proof fn lemma_multiple(m: int, g: int, a: int)
    requires
        g > 0,
        a == m * g,
    ensures
        a % g == 0,
{
    assert(a % g == 0) by (nonlinear_arith)
        requires
            g > 0,
            a == m * g,
    ;
}

pub proof fn lemma_quotient(a: int, g: int)
    requires
        g > 0,
        a % g == 0,
    ensures
        a == (a / g) * g,
{
    assert(a == (a / g) * g) by (nonlinear_arith)
        requires
            g > 0,
            a % g == 0,
    ;
}

pub proof fn lemma_gcd_divides(a: nat, b: nat)
    ensures
        gcd_spec(a, b) > 0 ==> a % gcd_spec(a, b) == 0 && b % gcd_spec(a, b) == 0,
        a > 0 || b > 0 ==> gcd_spec(a, b) > 0,
    decreases b,
{
    if b != 0 {
        lemma_gcd_divides(b, a % b);
        let g = gcd_spec(a, b) as int;
        if g > 0 {
            let r = (a % b) as int;
            let q = (a / b) as int;
            assert(a == q * b + r) by (nonlinear_arith)
                requires
                    b > 0,
                    q == a / b,
                    r == a % b,
            ;
            lemma_quotient(b as int, g);
            lemma_quotient(r, g);
            let kb = (b as int) / g;
            let kr = r / g;
            assert(a == (q * kb + kr) * g) by (nonlinear_arith)
                requires
                    a == q * b + r,
                    b == kb * g,
                    r == kr * g,
            ;
            lemma_multiple(q * kb + kr, g, a as int);
        }
    } else if a > 0 {
        lemma_multiple(1, a as int, a as int);
        lemma_multiple(0, a as int, 0);
    }
}

/// The greatest common divisor of two numbers; 1 when both are 0.
pub fn gcd(a: u32, b: u32) -> (r: u32)
    ensures
        r == (if a == 0 && b == 0 {
            1
        } else if a >= b {
            gcd_spec(a as nat, b as nat)
        } else {
            gcd_spec(b as nat, a as nat)
        }),
        r >= 1,
        a % r == 0,
        b % r == 0,
{
    let mut a = a;
    let mut b = b;
    if a < b {
        let t = a;
        a = b;
        b = t;
    }
    if a == 0 {
        return 1;
    }
    let ghost a0 = a;
    let ghost b0 = b;
    proof {
        lemma_gcd_divides(a0 as nat, b0 as nat);
    }
    while b != 0
        invariant
            gcd_spec(a as nat, b as nat) == gcd_spec(a0 as nat, b0 as nat),
        decreases b,
    {
        a = a % b;
        let t = a;
        a = b;
        b = t;
    }
    a
}

/// Whether `a` comes after `b` when points are ordered by `x`, then by
/// `y`.
pub open spec fn after(a: Vec2i, b: Vec2i) -> bool {
    a.x > b.x || (a.x == b.x && a.y > b.y)
}

pub open spec fn abs(v: int) -> int {
    if v < 0 {
        -v
    } else {
        v
    }
}

fn magnitude(v: i32) -> (r: u32)
    ensures
        r == abs(v as int),
{
    if v < 0 {
        (-(v as i64)) as u32
    } else {
        v as u32
    }
}

/// The divisor by which `unit_diff` shortens a step.
pub open spec fn unit_divisor(v: Vec2i) -> int {
    if v.x == 0 && v.y == 0 {
        1
    } else if abs(v.x as int) >= abs(v.y as int) {
        gcd_spec(abs(v.x as int) as nat, abs(v.y as int) as nat) as int
    } else {
        gcd_spec(abs(v.y as int) as nat, abs(v.x as int) as nat) as int
    }
}

impl Vec2i {
    /// The point with the given coordinates.
    pub fn new(x: i32, y: i32) -> (r: Vec2i)
        ensures
            r.x == x,
            r.y == y,
    {
        Vec2i { x, y }
    }

    /// The point reached from this one by the step `rhs`.
    pub fn add(self, rhs: Vec2i) -> (r: Vec2i)
        requires
            i32::MIN <= self.x + rhs.x <= i32::MAX,
            i32::MIN <= self.y + rhs.y <= i32::MAX,
        ensures
            r.x == self.x + rhs.x,
            r.y == self.y + rhs.y,
    {
        Vec2i { x: self.x + rhs.x, y: self.y + rhs.y }
    }

    /// Moves the point by the step `rhs`.
    pub fn add_assign(&mut self, rhs: Vec2i)
        requires
            i32::MIN <= old(self).x + rhs.x <= i32::MAX,
            i32::MIN <= old(self).y + rhs.y <= i32::MAX,
        ensures
            final(self).x == old(self).x + rhs.x,
            final(self).y == old(self).y + rhs.y,
    {
        *self = self.add(rhs)
    }

    /// The step from `rhs` to this point.
    pub fn sub(self, rhs: Vec2i) -> (r: Vec2i)
        requires
            i32::MIN <= self.x - rhs.x <= i32::MAX,
            i32::MIN <= self.y - rhs.y <= i32::MAX,
        ensures
            r.x == self.x - rhs.x,
            r.y == self.y - rhs.y,
    {
        Vec2i { x: self.x - rhs.x, y: self.y - rhs.y }
    }

    /// The shortest step in the same direction: both parts divided by
    /// their greatest common divisor.
    pub fn unit_diff(&self) -> (r: Vec2i)
        requires
            self.x > i32::MIN,
            self.y > i32::MIN,
        ensures
            r.x * unit_divisor(*self) == self.x,
            r.y * unit_divisor(*self) == self.y,
            unit_divisor(*self) >= 1,
    {
        let ax = magnitude(self.x);
        let ay = magnitude(self.y);
        let d = gcd(ax, ay);
        let ux: u32 = ax / d;
        let uy: u32 = ay / d;
        assert(ux * d == ax && ux <= ax) by (nonlinear_arith)
            requires
                ax % d == 0,
                ux == ax / d,
                d >= 1,
        ;
        assert(uy * d == ay && uy <= ay) by (nonlinear_arith)
            requires
                ay % d == 0,
                uy == ay / d,
                d >= 1,
        ;
        let x: i32 = if self.x < 0 {
            -(ux as i32)
        } else {
            ux as i32
        };
        let y: i32 = if self.y < 0 {
            -(uy as i32)
        } else {
            uy as i32
        };
        assert(x * d == self.x) by (nonlinear_arith)
            requires
                ux * d == ax,
                ax == abs(self.x as int),
                x == (if self.x < 0 {
                    -(ux as int)
                } else {
                    ux as int
                }),
        ;
        assert(y * d == self.y) by (nonlinear_arith)
            requires
                uy * d == ay,
                ay == abs(self.y as int),
                y == (if self.y < 0 {
                    -(uy as int)
                } else {
                    uy as int
                }),
        ;
        Vec2i { x, y }
    }
}

/// A line of vents from `start` to `end`.
#[derive(Copy, Clone, PartialEq, Eq, Structural, Debug)]
pub struct Line {
    pub start: Vec2i,
    pub end: Vec2i,
}

/// Whether both ends of a line lie so near the origin that its points can
/// be walked without leaving the range of `i32`.
pub open spec fn near(l: Line) -> bool {
    -0x1000_0000 <= l.start.x <= 0x1000_0000 && -0x1000_0000 <= l.start.y <= 0x1000_0000
        && -0x1000_0000 <= l.end.x <= 0x1000_0000 && -0x1000_0000 <= l.end.y <= 0x1000_0000
}

/// The step from `start` to `end`.
pub open spec fn delta(l: Line) -> Vec2i {
    Vec2i { x: (l.end.x - l.start.x) as i32, y: (l.end.y - l.start.y) as i32 }
}

/// The points of a line with whole coordinates, from `start` to `end`;
/// none when `start` comes after `end`.
pub open spec fn points_spec(l: Line) -> Seq<Vec2i> {
    if after(l.start, l.end) {
        seq![]
    } else {
        let d = unit_divisor(delta(l));
        Seq::new(
            (d + 1) as nat,
            |k: int|
                Vec2i {
                    x: (l.start.x + k * (delta(l).x as int / d)) as i32,
                    y: (l.start.y + k * (delta(l).y as int / d)) as i32,
                },
        )
    }
}

impl Line {
    /// The points of the line with whole coordinates, from `start` to
    /// `end`; none when `start` comes after `end`.
    pub fn get_points(self) -> (r: Vec<Vec2i>)
        requires
            near(self),
            self.start != self.end,
        ensures
            r@ == points_spec(self),
            after(self.start, self.end) ==> r.len() == 0,
            !after(self.start, self.end) ==> r.len() == unit_divisor(delta(self)) + 1,
            forall|k: int|
                0 <= k < r.len() ==> (#[trigger] r[k]).x * unit_divisor(delta(self)) == self.start.x
                    * unit_divisor(delta(self)) + k * delta(self).x && r[k].y * unit_divisor(
                    delta(self),
                ) == self.start.y * unit_divisor(delta(self)) + k * delta(self).y,
    {
        let full = self.end.sub(self.start);
        let u_delta = full.unit_diff();
        let ghost d = unit_divisor(full);
        let mut out: Vec<Vec2i> = Vec::new();
        if self.start.x > self.end.x || (self.start.x == self.end.x && self.start.y > self.end.y) {
            return out;
        }
        proof {
            assert(full == delta(self));
            if full.x == 0 {
                assert(gcd_spec(abs(full.y as int) as nat, 0) == abs(full.y as int));
                assert(d == full.y);
                assert(u_delta.y == 1) by (nonlinear_arith)
                    requires
                        u_delta.y * d == full.y,
                        d == full.y,
                        d >= 1,
                ;
                assert(u_delta.x == 0) by (nonlinear_arith)
                    requires
                        u_delta.x * d == 0,
                        d >= 1,
                ;
            } else {
                assert(u_delta.x >= 1) by (nonlinear_arith)
                    requires
                        u_delta.x * d == full.x,
                        full.x > 0,
                        d >= 1,
                ;
            }
            assert(abs(u_delta.x as int) <= abs(full.x as int) && abs(u_delta.y as int) <= abs(
                full.y as int,
            )) by (nonlinear_arith)
                requires
                    u_delta.x * d == full.x,
                    u_delta.y * d == full.y,
                    d >= 1,
            ;
            assert(d <= 0x2000_0000) by (nonlinear_arith)
                requires
                    u_delta.x * d == full.x,
                    u_delta.y * d == full.y,
                    d >= 1,
                    -0x2000_0000 <= full.x <= 0x2000_0000,
                    -0x2000_0000 <= full.y <= 0x2000_0000,
                    full.x != 0 || full.y != 0,
            ;
        }
        proof {
            assert(u_delta.x == full.x as int / d && u_delta.y == full.y as int / d)
                by (nonlinear_arith)
                requires
                    u_delta.x * d == full.x,
                    u_delta.y * d == full.y,
                    d >= 1,
            ;
        }
        let mut pos = self.start;
        let mut k: u32 = 0;
        loop
            invariant
                near(self),
                u_delta.x == full.x as int / d,
                u_delta.y == full.y as int / d,
                forall|j: int|
                    0 <= j < out.len() ==> #[trigger] out[j] == (Vec2i {
                        x: (self.start.x + j * u_delta.x) as i32,
                        y: (self.start.y + j * u_delta.y) as i32,
                    }),
                full == delta(self),
                d == unit_divisor(full),
                1 <= d <= 0x2000_0000,
                u_delta.x * d == full.x,
                u_delta.y * d == full.y,
                !after(self.start, self.end),
                self.start != self.end,
                (full.x == 0 && u_delta.x == 0 && u_delta.y == 1) || (full.x > 0 && u_delta.x >= 1),
                abs(u_delta.x as int) <= abs(full.x as int),
                abs(u_delta.y as int) <= abs(full.y as int),
                k <= d + 1,
                out.len() == k,
                pos.x == self.start.x + k * u_delta.x,
                pos.y == self.start.y + k * u_delta.y,
                forall|j: int|
                    0 <= j < out.len() ==> (#[trigger] out[j]).x * d == self.start.x * d + j
                        * full.x && out[j].y * d == self.start.y * d + j * full.y,
            decreases d + 1 - k,
        {
            proof {
                assert((k * u_delta.x) * d == k * full.x && (k * u_delta.y) * d == k * full.y)
                    by (nonlinear_arith)
                    requires
                        u_delta.x * d == full.x,
                        u_delta.y * d == full.y,
                ;
                assert(pos.x * d == self.start.x * d + k * full.x && pos.y * d == self.start.y * d
                    + k * full.y) by (nonlinear_arith)
                    requires
                        pos.x == self.start.x + k * u_delta.x,
                        pos.y == self.start.y + k * u_delta.y,
                        (k * u_delta.x) * d == k * full.x,
                        (k * u_delta.y) * d == k * full.y,
                ;
                if k <= d {
                    assert(k * full.x <= d * full.x && (k < d && full.x > 0 ==> k * full.x < d
                        * full.x)) by (nonlinear_arith)
                        requires
                            0 <= k <= d,
                            full.x >= 0,
                    ;
                    assert(pos.x * d <= self.end.x * d && (k < d && full.x > 0 ==> pos.x * d
                        < self.end.x * d)) by (nonlinear_arith)
                        requires
                            pos.x * d == self.start.x * d + k * full.x,
                            full.x == self.end.x - self.start.x,
                            k * full.x <= d * full.x,
                            k < d && full.x > 0 ==> k * full.x < d * full.x,
                    ;
                    assert(pos.x <= self.end.x && (k < d && full.x > 0 ==> pos.x < self.end.x))
                        by (nonlinear_arith)
                        requires
                            pos.x * d <= self.end.x * d,
                            k < d && full.x > 0 ==> pos.x * d < self.end.x * d,
                            d >= 1,
                    ;
                    if k == d {
                        assert(pos.x == self.end.x && pos.y == self.end.y) by (nonlinear_arith)
                            requires
                                pos.x * d == self.start.x * d + d * full.x,
                                pos.y * d == self.start.y * d + d * full.y,
                                full.x == self.end.x - self.start.x,
                                full.y == self.end.y - self.start.y,
                                d >= 1,
                        ;
                    }
                } else {
                    assert(pos.x * d == self.end.x * d + full.x && pos.y * d == self.end.y * d
                        + full.y) by (nonlinear_arith)
                        requires
                            pos.x * d == self.start.x * d + (d + 1) * full.x,
                            pos.y * d == self.start.y * d + (d + 1) * full.y,
                            full.x == self.end.x - self.start.x,
                            full.y == self.end.y - self.start.y,
                    ;
                    assert((full.x > 0 ==> pos.x > self.end.x) && (full.x == 0 ==> pos.x
                        == self.end.x) && (full.y > 0 ==> pos.y > self.end.y)) by (nonlinear_arith)
                        requires
                            pos.x * d == self.end.x * d + full.x,
                            pos.y * d == self.end.y * d + full.y,
                            d >= 1,
                    ;
                }
            }
            if pos.x > self.end.x || (pos.x == self.end.x && pos.y > self.end.y) {
                assert(out@ =~= points_spec(self));
                return out;
            }
            assert(k <= d);
            proof {
                assert(-0x4000_0000 <= (k + 1) * u_delta.x <= 0x4000_0000 && -0x4000_0000 <= (k
                    + 1) * u_delta.y <= 0x4000_0000) by (nonlinear_arith)
                    requires
                        0 <= k <= d,
                        u_delta.x * d == full.x,
                        u_delta.y * d == full.y,
                        -0x2000_0000 <= full.x <= 0x2000_0000,
                        -0x2000_0000 <= full.y <= 0x2000_0000,
                        d >= 1,
                        abs(u_delta.x as int) <= abs(full.x as int),
                        abs(u_delta.y as int) <= abs(full.y as int),
                ;
                assert((k + 1) * u_delta.x == k * u_delta.x + u_delta.x && (k + 1) * u_delta.y == k
                    * u_delta.y + u_delta.y) by (nonlinear_arith);
            }
            out.push(pos);
            pos.add_assign(u_delta);
            k = k + 1;
        }
    }
}

/// Whether a line begins or ends.
#[derive(Copy, Clone, PartialEq, Eq, Structural, Debug)]
pub enum LineEventType {
    Start,
    End,
}

/// The beginning or the end of a line.
#[derive(Copy, Clone, PartialEq, Eq, Structural, Debug)]
pub struct LineEvent {
    pub line: Line,
    pub t: LineEventType,
}

/// The two events of a line: its start and its end.
pub fn simple_line_to_events(line: Line) -> (r: [LineEvent; 2])
    ensures
        r@ == seq![
            LineEvent { line, t: LineEventType::Start },
            LineEvent { line, t: LineEventType::End },
        ],
{
    let r = [LineEvent { line, t: LineEventType::Start }, LineEvent { line, t: LineEventType::End }];
    assert(r@ =~= seq![
        LineEvent { line, t: LineEventType::Start },
        LineEvent { line, t: LineEventType::End },
    ]);
    r
}

/// The direction of a line along an axis.
#[derive(Copy, Clone, PartialEq, Eq, Structural, Debug)]
pub enum Direction {
    Horizontal,
    Vertical,
}

/// A line along one axis: where it begins, its direction and length.
#[derive(Copy, Clone, PartialEq, Eq, Structural, Debug)]
pub struct SimpleLine {
    pub p: Vec2i,
    pub d: Direction,
    pub len: u32,
}

/// Which end of a line an event marks.
#[derive(Copy, Clone, PartialEq, Eq, Structural, Debug)]
pub enum LineEndType {
    Start,
    End,
}

/// The beginning or the end of a line along an axis.
#[derive(Copy, Clone, PartialEq, Eq, Structural, Debug)]
pub struct SimpleLineEvent {
    pub p: Vec2i,
    pub d: Direction,
    pub t: LineEndType,
}

impl SimpleLine {
    /// The two events of the line: one where it begins, one where it
    /// ends.
    pub fn into(self) -> (r: [SimpleLineEvent; 2])
        requires
            self.len <= i32::MAX,
            self.d == Direction::Horizontal ==> self.p.x + self.len <= i32::MAX,
            self.d == Direction::Vertical ==> self.p.y + self.len <= i32::MAX,
        ensures
            r[0] == (SimpleLineEvent { p: self.p, d: self.d, t: LineEndType::Start }),
            r[1].d == self.d,
            r[1].t == LineEndType::End,
            self.d == Direction::Horizontal ==> r[1].p == (Vec2i {
                x: (self.p.x + self.len) as i32,
                y: self.p.y,
            }),
            self.d == Direction::Vertical ==> r[1].p == (Vec2i {
                x: self.p.x,
                y: (self.p.y + self.len) as i32,
            }),
    {
        [
            SimpleLineEvent { p: self.p, d: self.d, t: LineEndType::Start },
            SimpleLineEvent {
                p: match self.d {
                    Direction::Horizontal => self.p.add(Vec2i::new(self.len as i32, 0)),
                    Direction::Vertical => self.p.add(Vec2i::new(0, self.len as i32)),
                },
                d: self.d,
                t: LineEndType::End,
            },
        ]
    }
}

/// The line that the groups of a match give: groups 1 to 4 are its four
/// coordinates; the ends are put in order.
pub open spec fn line_of(groups: Seq<Option<Seq<char>>>) -> Option<Line> {
    if groups.len() < 5 {
        None
    } else {
        match (groups[1], groups[2], groups[3], groups[4]) {
            (Some(a), Some(b), Some(c), Some(d)) => match (
                text::i32_of(a),
                text::i32_of(b),
                text::i32_of(c),
                text::i32_of(d),
            ) {
                (Some(x1), Some(y1), Some(x2), Some(y2)) => {
                    let s = Vec2i { x: x1, y: y1 };
                    let e = Vec2i { x: x2, y: y2 };
                    if after(s, e) {
                        Some(Line { start: e, end: s })
                    } else {
                        Some(Line { start: s, end: e })
                    }
                },
                _ => None,
            },
            _ => None,
        }
    }
}

/// Makes a line out of the groups of a match.
pub fn line_from_groups(groups: &Vec<Option<Vec<char>>>) -> (r: Option<Line>)
    ensures
        r == line_of(pattern::groups_view(groups@)),
{
    if groups.len() < 5 {
        return None;
    }
    let ghost view = pattern::groups_view(groups@);
    assert(view[1] == match groups@[1] {
        Some(t) => Some(t@),
        None => None,
    });
    assert(view[2] == match groups@[2] {
        Some(t) => Some(t@),
        None => None,
    });
    assert(view[3] == match groups@[3] {
        Some(t) => Some(t@),
        None => None,
    });
    assert(view[4] == match groups@[4] {
        Some(t) => Some(t@),
        None => None,
    });
    match (&groups[1], &groups[2], &groups[3], &groups[4]) {
        (Some(a), Some(b), Some(c), Some(d)) => {
            match (text::parse_i32(a), text::parse_i32(b), text::parse_i32(c), text::parse_i32(d)) {
                (Some(x1), Some(y1), Some(x2), Some(y2)) => {
                    let s = Vec2i { x: x1, y: y1 };
                    let e = Vec2i { x: x2, y: y2 };
                    if s.x > e.x || (s.x == e.x && s.y > e.y) {
                        Some(Line { start: e, end: s })
                    } else {
                        Some(Line { start: s, end: e })
                    }
                },
                _ => None,
            }
        },
        _ => None,
    }
}

/// The line that a line of the text stands for.
pub open spec fn parse_spec(s: Seq<char>) -> Option<Line> {
    match pattern::regex_captures("^(\\d+),(\\d+) -> (\\d+),(\\d+)"@, s) {
        Some(groups) => line_of(groups),
        None => None,
    }
}

/// Reads the lines of vents, one from each line of the text.
pub fn read_data(lines: &Vec<Vec<char>>) -> (r: Option<Vec<Line>>)
    ensures
        r is Some <==> forall|i: int| 0 <= i < lines.len() ==> parse_spec(#[trigger] lines[i]@) is Some,
        r matches Some(v) ==> v.len() == lines.len() && forall|i: int|
            0 <= i < v.len() ==> Some(#[trigger] v[i]) == parse_spec(lines[i]@),
{
    let mut out: Vec<Line> = Vec::new();
    let mut i: usize = 0;
    while i < lines.len()
        invariant
            i <= lines.len(),
            out.len() == i,
            forall|k: int| 0 <= k < i ==> parse_spec(#[trigger] lines[k]@) is Some,
            forall|k: int| 0 <= k < i ==> Some(#[trigger] out[k]) == parse_spec(lines[k]@),
        decreases lines.len() - i,
    {
        let groups = pattern::captures("^(\\d+),(\\d+) -> (\\d+),(\\d+)", &lines[i]);
        let line = match groups {
            Some(g) => line_from_groups(&g),
            None => None,
        };
        match line {
            Some(l) => {
                out.push(l);
            },
            None => {
                return None;
            },
        }
        i = i + 1;
    }
    Some(out)
}

/// Whether the starts of the lines rise strictly.
pub open spec fn ordered(s: Seq<Line>) -> bool {
    forall|i: int, j: int| 0 <= i < j < s.len() ==> after(s[j].start, s[i].start)
}

/// The first place from `i` on whose line does not start before `l`.
pub open spec fn place_for(s: Seq<Line>, l: Line, i: int) -> int
    decreases s.len() - i,
{
    if i < 0 || i >= s.len() || !after(l.start, s[i].start) {
        i
    } else {
        place_for(s, l, i + 1)
    }
}

/// The set of lines after `l` is offered to it: lines are kept in the
/// order of their starts, and of lines with one start only the first
/// that was offered is kept.
pub open spec fn offer_spec(s: Seq<Line>, l: Line) -> Seq<Line> {
    let p = place_for(s, l, 0);
    if p < s.len() && s[p].start == l.start {
        s
    } else {
        s.insert(p, l)
    }
}

pub proof fn lemma_place_for(s: Seq<Line>, l: Line, i: int)
    requires
        0 <= i <= s.len(),
    ensures
        i <= place_for(s, l, i) <= s.len(),
        forall|k: int| i <= k < place_for(s, l, i) ==> after(l.start, s[k].start),
        place_for(s, l, i) < s.len() ==> !after(l.start, s[place_for(s, l, i)].start),
    decreases s.len() - i,
{
    if i < s.len() && after(l.start, s[i].start) {
        lemma_place_for(s, l, i + 1);
    }
}

/// Offers a line to the set.
pub fn offer(set: &mut Vec<Line>, l: Line)
    requires
        ordered(old(set)@),
    ensures
        final(set)@ == offer_spec(old(set)@, l),
        ordered(final(set)@),
{
    let mut i: usize = 0;
    proof {
        lemma_place_for(set@, l, 0);
    }
    while i < set.len() && (l.start.x > set[i].start.x || (l.start.x == set[i].start.x && l.start.y
        > set[i].start.y))
        invariant
            i <= set.len(),
            *set == *old(set),
            place_for(set@, l, 0) == place_for(set@, l, i as int),
        decreases set.len() - i,
    {
        i = i + 1;
    }
    if i < set.len() && set[i].start.x == l.start.x && set[i].start.y == l.start.y {
        return ;
    }
    let ghost before = set@;
    set.insert(i, l);
    proof {
        assert forall|a: int, b: int| 0 <= a < b < set@.len() implies after(
            set@[b].start,
            set@[a].start,
        ) by {
            if b < i {
                assert(set@[a] == before[a] && set@[b] == before[b]);
            } else if b == i {
                assert(set@[a] == before[a]);
            } else if a < i {
                assert(set@[a] == before[a] && set@[b] == before[b - 1]);
                if b - 1 == i {
                } else {
                    assert(after(before[b - 1].start, before[i as int].start));
                }
            } else if a == i {
                assert(set@[b] == before[b - 1]);
                if b - 1 > i {
                    assert(after(before[b - 1].start, before[i as int].start));
                }
            } else {
                assert(set@[a] == before[a - 1] && set@[b] == before[b - 1]);
            }
        }
    }
}

/// Puts the lines into a set ordered by their starts.
pub fn arrange(lines: &Vec<Line>) -> (set: Vec<Line>)
    ensures
        ordered(set@),
        set@ == arranged(lines@),
{
    let mut set: Vec<Line> = Vec::new();
    let mut i: usize = 0;
    while i < lines.len()
        invariant
            i <= lines.len(),
            ordered(set@),
            set@ == arranged(lines@.subrange(0, i as int)),
        decreases lines.len() - i,
    {
        proof {
            assert(lines@.subrange(0, i + 1).drop_last() =~= lines@.subrange(0, i as int));
            assert(lines@.subrange(0, i + 1).last() == lines@[i as int]);
        }
        offer(&mut set, lines[i]);
        i = i + 1;
    }
    assert(lines@.subrange(0, i as int) =~= lines@);
    set
}

/// The set that the lines give when they are offered one after another.
pub open spec fn arranged(lines: Seq<Line>) -> Seq<Line>
    decreases lines.len(),
{
    if lines.len() == 0 {
        seq![]
    } else {
        offer_spec(arranged(lines.drop_last()), lines.last())
    }
}

/// The first index from `i` on where the point `p` stands in the list,
/// or the length of the list.
pub open spec fn find_point(map: Seq<(Vec2i, bool)>, p: Vec2i, i: int) -> int
    decreases map.len() - i,
{
    if i < 0 || i >= map.len() || map[i].0 == p {
        if i < 0 {
            map.len() as int
        } else {
            i
        }
    } else {
        find_point(map, p, i + 1)
    }
}

/// The list of points after `p` has been seen once more: a point seen
/// before is marked as crossed, a new one is noted.
pub open spec fn mark_spec(map: Seq<(Vec2i, bool)>, p: Vec2i) -> Seq<(Vec2i, bool)> {
    let i = find_point(map, p, 0);
    if i < map.len() {
        map.update(i, (map[i].0, true))
    } else {
        map.push((p, false))
    }
}

/// The list of points after the points of `points` have been seen.
pub open spec fn mark_all(map: Seq<(Vec2i, bool)>, points: Seq<Vec2i>) -> Seq<(Vec2i, bool)>
    decreases points.len(),
{
    if points.len() == 0 {
        map
    } else {
        mark_spec(mark_all(map, points.drop_last()), points.last())
    }
}

/// The number of points of the list that are marked as crossed.
pub open spec fn crossed(map: Seq<(Vec2i, bool)>) -> int
    decreases map.len(),
{
    if map.len() == 0 {
        0
    } else {
        crossed(map.drop_last()) + (if map.last().1 {
            1int
        } else {
            0int
        })
    }
}

fn mark(map: &mut Vec<(Vec2i, bool)>, p: Vec2i)
    ensures
        final(map)@ == mark_spec(old(map)@, p),
{
    let mut i: usize = 0;
    while i < map.len()
        invariant
            i <= map.len(),
            *map == *old(map),
            find_point(map@, p, 0) == find_point(map@, p, i as int),
        decreases map.len() - i,
    {
        if map[i].0 == p {
            let entry = map[i];
            map.set(i, (entry.0, true));
            return ;
        }
        i = i + 1;
    }
    map.push((p, false));
}

fn mark_points(map: &mut Vec<(Vec2i, bool)>, points: &Vec<Vec2i>)
    ensures
        final(map)@ == mark_all(old(map)@, points@),
{
    let mut i: usize = 0;
    while i < points.len()
        invariant
            i <= points.len(),
            map@ == mark_all(old(map)@, points@.subrange(0, i as int)),
        decreases points.len() - i,
    {
        proof {
            assert(points@.subrange(0, i + 1).drop_last() =~= points@.subrange(0, i as int));
            assert(points@.subrange(0, i + 1).last() == points@[i as int]);
        }
        mark(map, points[i]);
        i = i + 1;
    }
    assert(points@.subrange(0, i as int) =~= points@);
}

fn count_crossed(map: &Vec<(Vec2i, bool)>) -> (n: usize)
    ensures
        n == crossed(map@),
{
    let mut n: usize = 0;
    let mut i: usize = 0;
    while i < map.len()
        invariant
            i <= map.len(),
            n == crossed(map@.subrange(0, i as int)),
            n <= i,
        decreases map.len() - i,
    {
        proof {
            assert(map@.subrange(0, i + 1).drop_last() =~= map@.subrange(0, i as int));
            assert(map@.subrange(0, i + 1).last() == map@[i as int]);
        }
        if map[i].1 {
            n = n + 1;
        }
        i = i + 1;
    }
    assert(map@.subrange(0, i as int) =~= map@);
    n
}

/// Whether a line runs along one of the axes.
pub open spec fn straight(l: Line) -> bool {
    l.start.x == l.end.x || l.start.y == l.end.y
}

/// Whether the points of every line can be walked.
pub open spec fn walkable(input: Seq<Line>) -> bool {
    forall|i: int| 0 <= i < input.len() ==> near(#[trigger] input[i]) && input[i].start != input[i].end
}

/// The list of points after the points of the first `n` lines have been
/// seen, one line after another; with `only_straight` the lines that run
/// along no axis are left out.
pub open spec fn marks(input: Seq<Line>, only_straight: bool, n: int) -> Seq<(Vec2i, bool)>
    decreases n,
{
    if n <= 0 {
        seq![]
    } else if !only_straight || straight(input[n - 1]) {
        mark_all(marks(input, only_straight, n - 1), points_spec(input[n - 1]))
    } else {
        marks(input, only_straight, n - 1)
    }
}

/// How often the point `p` stands in the list.
pub open spec fn hits(points: Seq<Vec2i>, p: Vec2i) -> int
    decreases points.len(),
{
    if points.len() == 0 {
        0
    } else {
        hits(points.drop_last(), p) + (if points.last() == p {
            1int
        } else {
            0int
        })
    }
}

/// The number of points that stand in the list at least twice: the
/// places of the list where a point stands for the second time.
pub open spec fn second_visits(points: Seq<Vec2i>) -> int
    decreases points.len(),
{
    if points.len() == 0 {
        0
    } else {
        second_visits(points.drop_last()) + (if hits(points.drop_last(), points.last()) == 1 {
            1int
        } else {
            0int
        })
    }
}

/// The points of the first `n` lines, one line after another; with
/// `only_straight` the lines that run along no axis are left out.
pub open spec fn trail(input: Seq<Line>, only_straight: bool, n: int) -> Seq<Vec2i>
    decreases n,
{
    if n <= 0 {
        seq![]
    } else if !only_straight || straight(input[n - 1]) {
        trail(input, only_straight, n - 1) + points_spec(input[n - 1])
    } else {
        trail(input, only_straight, n - 1)
    }
}

/// Whether the list `map` tells what has been seen in `hist`: it holds
/// each point of `hist` once, marked as crossed if the point stands in
/// `hist` at least twice.
pub open spec fn faithful(map: Seq<(Vec2i, bool)>, hist: Seq<Vec2i>) -> bool {
    &&& forall|i: int, j: int| 0 <= i < j < map.len() ==> map[i].0 != map[j].0
    &&& forall|i: int|
        0 <= i < map.len() ==> hits(hist, (#[trigger] map[i]).0) >= 1 && map[i].1 == (hits(
            hist,
            map[i].0,
        ) >= 2)
    &&& forall|p: Vec2i| #[trigger] hits(hist, p) >= 1 ==> find_point(map, p, 0) < map.len()
    &&& crossed(map) == second_visits(hist)
}

pub proof fn lemma_find_point(map: Seq<(Vec2i, bool)>, p: Vec2i, i: int)
    requires
        0 <= i <= map.len(),
    ensures
        i <= find_point(map, p, i) <= map.len(),
        find_point(map, p, i) < map.len() ==> map[find_point(map, p, i)].0 == p,
        forall|j: int| i <= j < find_point(map, p, i) ==> (#[trigger] map[j]).0 != p,
    decreases map.len() - i,
{
    if i < map.len() && map[i].0 != p {
        lemma_find_point(map, p, i + 1);
    }
}

pub proof fn lemma_hits_nonneg(points: Seq<Vec2i>, p: Vec2i)
    ensures
        hits(points, p) >= 0,
    decreases points.len(),
{
    if points.len() > 0 {
        lemma_hits_nonneg(points.drop_last(), p);
    }
}

pub proof fn lemma_crossed_update(map: Seq<(Vec2i, bool)>, i: int)
    requires
        0 <= i < map.len(),
    ensures
        crossed(map.update(i, (map[i].0, true))) == crossed(map) + (if map[i].1 {
            0int
        } else {
            1int
        }),
    decreases map.len(),
{
    let new = map.update(i, (map[i].0, true));
    if i == map.len() - 1 {
        assert(new.drop_last() =~= map.drop_last());
    } else {
        assert(new.drop_last() =~= map.drop_last().update(i, (map[i].0, true)));
        lemma_crossed_update(map.drop_last(), i);
    }
}

/// Seeing a point once more keeps the list faithful.
pub proof fn lemma_mark(map: Seq<(Vec2i, bool)>, hist: Seq<Vec2i>, p: Vec2i)
    requires
        faithful(map, hist),
    ensures
        faithful(mark_spec(map, p), hist.push(p)),
{
    let new = mark_spec(map, p);
    let all = hist.push(p);
    let at = find_point(map, p, 0);
    lemma_find_point(map, p, 0);
    lemma_hits_nonneg(hist, p);
    assert(all.drop_last() =~= hist);
    assert forall|q: Vec2i| hits(all, q) == hits(hist, q) + (if q == p {
        1int
    } else {
        0int
    }) by {}
    if at < map.len() {
        lemma_crossed_update(map, at);
        assert(hits(hist, map[at].0) >= 1);
    } else {
        assert(new.drop_last() =~= map);
        if hits(hist, p) >= 1 {
            assert(find_point(map, p, 0) < map.len());
        }
    }
    assert forall|i: int, j: int| 0 <= i < j < new.len() implies new[i].0 != new[j].0 by {
        if at < map.len() {
            assert(new[i].0 == map[i].0 && new[j].0 == map[j].0);
        } else if j == map.len() {
            assert(new[i] == map[i]);
        }
    }
    assert forall|i: int| 0 <= i < new.len() implies hits(all, (#[trigger] new[i]).0) >= 1
        && new[i].1 == (hits(all, new[i].0) >= 2) by {
        if i < map.len() {
            assert(hits(hist, map[i].0) >= 1);
            if at < map.len() && i != at {
                assert(new[i] == map[i]);
                if i < at {
                    assert(map[i].0 != p);
                } else {
                    assert(map[at].0 != map[i].0);
                }
            }
        }
    }
    assert forall|q: Vec2i| #[trigger] hits(all, q) >= 1 implies find_point(new, q, 0)
        < new.len() by {
        lemma_find_point(new, q, 0);
        lemma_hits_nonneg(hist, q);
        if q == p {
            if at < map.len() {
                assert(new[at].0 == p);
            } else {
                assert(new[map.len() as int].0 == p);
            }
        } else {
            assert(hits(hist, q) >= 1);
            let k = find_point(map, q, 0);
            lemma_find_point(map, q, 0);
            assert(new[k].0 == q);
        }
    }
}

/// Seeing the points of a list keeps the list faithful.
pub proof fn lemma_mark_all(map: Seq<(Vec2i, bool)>, hist: Seq<Vec2i>, points: Seq<Vec2i>)
    requires
        faithful(map, hist),
    ensures
        faithful(mark_all(map, points), hist + points),
    decreases points.len(),
{
    if points.len() == 0 {
        assert(hist + points =~= hist);
    } else {
        lemma_mark_all(map, hist, points.drop_last());
        lemma_mark(mark_all(map, points.drop_last()), hist + points.drop_last(), points.last());
        assert((hist + points.drop_last()).push(points.last()) =~= hist + points);
    }
}

/// The list of marks tells what has been seen on the trail of the lines.
pub proof fn lemma_marks(input: Seq<Line>, only_straight: bool, n: int)
    ensures
        faithful(marks(input, only_straight, n), trail(input, only_straight, n)),
    decreases n,
{
    if n > 0 {
        lemma_marks(input, only_straight, n - 1);
        if !only_straight || straight(input[n - 1]) {
            lemma_mark_all(
                marks(input, only_straight, n - 1),
                trail(input, only_straight, n - 1),
                points_spec(input[n - 1]),
            );
        }
    }
}

/// Counts the points where at least two of the lines cross; with
/// `only_straight` the lines that run along no axis are left out.
pub fn count_crossings(input: &Vec<Line>, only_straight: bool) -> (r: usize)
    requires
        walkable(input@),
    ensures
        r == second_visits(trail(input@, only_straight, input.len() as int)),
        r == crossed(marks(input@, only_straight, input.len() as int)),
{
    proof {
        lemma_marks(input@, only_straight, input.len() as int);
    }
    let mut map: Vec<(Vec2i, bool)> = Vec::new();
    let mut i: usize = 0;
    while i < input.len()
        invariant
            i <= input.len(),
            walkable(input@),
            map@ == marks(input@, only_straight, i as int),
        decreases input.len() - i,
    {
        let l = input[i];
        assert(near(input@[i as int]));
        if !only_straight || l.start.x == l.end.x || l.start.y == l.end.y {
            let points = l.get_points();
            mark_points(&mut map, &points);
        }
        i = i + 1;
    }
    count_crossed(&map)
}

/// The number of points where at least two lines along the axes cross.
pub fn calc_p1(input: &Vec<Line>) -> (r: usize)
    requires
        walkable(input@),
    ensures
        r == second_visits(trail(input@, true, input.len() as int)),
{
    count_crossings(input, true)
}

/// The number of points where at least two lines cross.
pub fn calc_p2(input: &Vec<Line>) -> (r: usize)
    requires
        walkable(input@),
    ensures
        r == second_visits(trail(input@, false, input.len() as int)),
{
    count_crossings(input, false)
}

} // verus!
