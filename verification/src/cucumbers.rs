use crate::herds::{lemma_herd_counts, places};
use vstd::prelude::*;

verus! {

/// What a place of the sea floor holds: nothing, or a sea cucumber of the
/// herd that moves down or of the herd that moves right.
#[derive(Copy, Clone, PartialEq, Eq, Structural, Debug)]
pub enum Space {
    Empty,
    Down,
    Right,
}

impl Space {
    /// The step of a herd, as columns and rows.
    pub open spec fn diff(self) -> (usize, usize) {
        match self {
            Space::Right => (1, 0),
            _ => (0, 1),
        }
    }

    /// The step of a herd, as columns and rows.
    pub fn get_diff(&self) -> (d: (usize, usize))
        requires
            *self != Space::Empty,
        ensures
            d == self.diff(),
    {
        match self {
            Space::Right => (1, 0),
            _ => (0, 1),
        }
    }
}

/// What a character of the map stands for.
pub open spec fn space_of(c: char) -> Option<Space> {
    if c == '.' {
        Some(Space::Empty)
    } else if c == '>' {
        Some(Space::Right)
    } else if c == 'v' {
        Some(Space::Down)
    } else {
        None
    }
}

/// Reads one row of the map. `None` when a character is none of `.`, `>`
/// and `v`.
pub fn parse_line(s: &Vec<char>) -> (r: Option<Vec<Space>>)
    ensures
        r is Some <==> forall|i: int| 0 <= i < s.len() ==> space_of(#[trigger] s[i]) is Some,
        r matches Some(v) ==> v.len() == s.len() && forall|i: int|
            0 <= i < v.len() ==> Some(#[trigger] v[i]) == space_of(s[i]),
{
    let mut out: Vec<Space> = Vec::new();
    let mut i: usize = 0;
    while i < s.len()
        invariant
            i <= s.len(),
            out.len() == i,
            forall|k: int| 0 <= k < i ==> space_of(#[trigger] s[k]) is Some,
            forall|k: int| 0 <= k < i ==> Some(#[trigger] out[k]) == space_of(s[k]),
        decreases s.len() - i,
    {
        let c = s[i];
        let v = if c == '.' {
            Space::Empty
        } else if c == '>' {
            Space::Right
        } else if c == 'v' {
            Space::Down
        } else {
            return None;
        };
        out.push(v);
        i = i + 1;
    }
    Some(out)
}

/// The sea floor, row by row.
pub struct Grid {
    pub data: Vec<Space>,
    pub width: usize,
    pub height: usize,
}

/// The rows of the lines from the `i`-th on, one after another.
pub open spec fn rows_from(lines: Seq<Vec<char>>, i: int) -> Option<Seq<Space>>
    decreases lines.len() - i,
{
    if i < 0 || i >= lines.len() {
        Some(seq![])
    } else if exists|k: int| 0 <= k < lines[i].len() && space_of(#[trigger] lines[i][k]) is None {
        None
    } else {
        match rows_from(lines, i + 1) {
            Some(rest) => Some(Seq::new(lines[i].len() as nat, |k: int| space_of(lines[i][k]).unwrap()) + rest),
            None => None,
        }
    }
}

/// Reads the map. Its width is the length of the first line. `None` when
/// there is no line, or when a character is none of `.`, `>` and `v`.
pub fn read_data(lines: &Vec<Vec<char>>) -> (r: Option<Grid>)
    ensures
        r is Some <==> lines.len() > 0 && rows_from(lines@, 0) is Some,
        r matches Some(g) ==> g.width == lines[0].len() && g.height == lines.len() && Some(g.data@)
            == rows_from(lines@, 0),
{
    if lines.len() == 0 {
        return None;
    }
    let width = lines[0].len();
    let height = lines.len();
    let mut data: Vec<Space> = Vec::new();
    let mut i: usize = 0;
    while i < lines.len()
        invariant
            i <= lines.len(),
            rows_from(lines@, 0) == (match rows_from(lines@, i as int) {
                Some(rest) => Some(data@ + rest),
                None => None,
            }),
        decreases lines.len() - i,
    {
        match parse_line(&lines[i]) {
            Some(mut row) => {
                proof {
                    let line = lines@[i as int];
                    assert(!(exists|k: int|
                        0 <= k < line.len() && space_of(#[trigger] line[k]) is None));
                    let expect = Seq::new(line.len() as nat, |k: int| space_of(line[k]).unwrap());
                    assert(row@ =~= expect);
                    match rows_from(lines@, i + 1) {
                        Some(rest) => {
                            assert(data@ + (expect + rest) =~= (data@ + row@) + rest);
                        },
                        None => {},
                    }
                }
                data.append(&mut row);
            },
            None => {
                proof {
                    let line = lines@[i as int];
                    let k = choose|k: int| 0 <= k < line.len() && !(space_of(#[trigger] line[k]) is Some);
                    assert(space_of(line[k]) is None);
                }
                return None;
            },
        }
        i = i + 1;
    }
    assert(data@ + Seq::<Space>::empty() =~= data@);
    Some(Grid { data, width, height })
}

/// The place that a move from `(x, y)` by `d` leads to on a floor of the
/// given size, whose edges are joined.
pub open spec fn target(width: int, height: int, x: int, y: int, d: (usize, usize)) -> int {
    ((y + d.1) % height) * width + (x + d.0) % width
}

/// The floor while the herd `s` moves: `new` is what has been written so
/// far, and the places before `i` have been looked at.
pub open spec fn moved(old: Seq<Space>, width: int, height: int, s: Space, i: int) -> Seq<Space>
    decreases i,
{
    if i <= 0 {
        Seq::new(old.len(), |k: int| Space::Empty)
    } else {
        let before = moved(old, width, height, s, i - 1);
        let x = (i - 1) % width;
        let y = (i - 1) / width;
        let t = target(width, height, x, y, s.diff());
        if old[i - 1] == s && old[t] == Space::Empty {
            before.update(t, s)
        } else if old[i - 1] != Space::Empty {
            before.update(i - 1, old[i - 1])
        } else {
            before
        }
    }
}

/// Whether some sea cucumber of the herd `s` at a place before `i` has a
/// free place in front of it.
pub open spec fn any_moves(old: Seq<Space>, width: int, height: int, s: Space, i: int) -> bool
    decreases i,
{
    if i <= 0 {
        false
    } else {
        let x = (i - 1) % width;
        let y = (i - 1) / width;
        any_moves(old, width, height, s, i - 1) || (old[i - 1] == s && old[target(
            width,
            height,
            x,
            y,
            s.diff(),
        )] == Space::Empty)
    }
}

pub proof fn lemma_cell_index(width: int, height: int, x: int, y: int)
    requires
        0 <= x < width,
        0 <= y < height,
    ensures
        0 <= y * width + x < width * height,
        (y * width + x) % width == x,
        (y * width + x) / width == y,
{
    assert(0 <= y * width + x < width * height && (y * width + x) % width == x && (y * width + x)
        / width == y) by (nonlinear_arith)
        requires
            0 <= x < width,
            0 <= y < height,
    ;
}

pub proof fn lemma_mod_range(a: int, m: int)
    requires
        0 <= a,
        0 < m,
    ensures
        0 <= a % m < m,
        a < m ==> a % m == a,
{
    assert(0 <= a % m < m && (a < m ==> a % m == a)) by (nonlinear_arith)
        requires
            0 <= a,
            0 < m,
    ;
}

/// The place in front of place `p` for the herd `s`.
pub open spec fn front(w: int, h: int, s: Space, p: int) -> int {
    target(w, h, p % w, p / w, s.diff())
}

/// The place behind place `p` for the herd `s`.
pub open spec fn behind(w: int, h: int, s: Space, p: int) -> int {
    ((p / w + h - s.diff().1) % h) * w + (p % w + w - s.diff().0) % w
}

/// Whether the sea cucumber at place `p` is of the herd `s` and has a
/// free place in front of it.
pub open spec fn leaves(old: Seq<Space>, w: int, h: int, s: Space, p: int) -> bool {
    old[p] == s && old[front(w, h, s, p)] == Space::Empty
}

/// What place `p` holds after the herd `s` has moved: nothing where a
/// sea cucumber left, one of the herd where one came from behind, and
/// what it held before everywhere else.
pub open spec fn shifted_at(old: Seq<Space>, w: int, h: int, s: Space, p: int) -> Space {
    if leaves(old, w, h, s, p) {
        Space::Empty
    } else if old[p] == Space::Empty && old[behind(w, h, s, p)] == s {
        s
    } else {
        old[p]
    }
}

/// The floor after the herd `s` has moved.
pub open spec fn shifted(old: Seq<Space>, w: int, h: int, s: Space) -> Seq<Space> {
    Seq::new(old.len(), |p: int| shifted_at(old, w, h, s, p))
}

/// What place `p` holds while the herd `s` moves, when the places before
/// `i` have been looked at.
pub open spec fn moved_at(old: Seq<Space>, w: int, h: int, s: Space, i: int, p: int) -> Space {
    if old[p] == Space::Empty && old[behind(w, h, s, p)] == s && behind(w, h, s, p) < i {
        s
    } else if p < i && old[p] != Space::Empty && !leaves(old, w, h, s, p) {
        old[p]
    } else {
        Space::Empty
    }
}

/// One step forward along a joined edge and one step back lead to the
/// same number, and so do one step back and one step forward.
pub proof fn lemma_wrap(a: int, m: int, d: int)
    requires
        0 <= a < m,
        0 <= d <= 1,
    ensures
        0 <= (a + d) % m < m,
        0 <= (a + m - d) % m < m,
        ((a + d) % m + m - d) % m == a,
        ((a + m - d) % m + d) % m == a,
{
    assert((a + m) % m == a && a % m == a && m % m == 0 && (m - 1) % m == m - 1 && (a + 1 < m ==> (a
        + 1) % m == a + 1) && (a >= 1 ==> (a + m - 1) % m == a - 1)) by (nonlinear_arith)
        requires
            0 <= a < m,
    ;
}

/// The place in front and the place behind lie on the floor, and each
/// undoes the other.
pub proof fn lemma_front_behind(w: int, h: int, s: Space, p: int)
    requires
        w > 0,
        h > 0,
        0 <= p < w * h,
        s != Space::Empty,
    ensures
        0 <= front(w, h, s, p) < w * h,
        0 <= behind(w, h, s, p) < w * h,
        behind(w, h, s, front(w, h, s, p)) == p,
        front(w, h, s, behind(w, h, s, p)) == p,
{
    let x = p % w;
    let y = p / w;
    assert(0 <= x < w && 0 <= y < h && p == y * w + x) by (nonlinear_arith)
        requires
            w > 0,
            h > 0,
            0 <= p < w * h,
            x == p % w,
            y == p / w,
    ;
    let d = s.diff();
    lemma_wrap(x, w, d.0 as int);
    lemma_wrap(y, h, d.1 as int);
    let fx = (x + d.0) % w;
    let fy = (y + d.1) % h;
    lemma_cell_index(w, h, fx, fy);
    let bx = (x + w - d.0) % w;
    let by = (y + h - d.1) % h;
    lemma_cell_index(w, h, bx, by);
}

/// While the herd moves, every place holds what `moved_at` says.
pub proof fn lemma_moved_upto(old: Seq<Space>, w: int, h: int, s: Space, i: int)
    requires
        w > 0,
        h > 0,
        old.len() == w * h,
        s != Space::Empty,
        0 <= i <= w * h,
    ensures
        moved(old, w, h, s, i).len() == old.len(),
        forall|p: int|
            0 <= p < old.len() ==> #[trigger] moved(old, w, h, s, i)[p] == moved_at(
                old,
                w,
                h,
                s,
                i,
                p,
            ),
    decreases i,
{
    if i > 0 {
        lemma_moved_upto(old, w, h, s, i - 1);
        let q = i - 1;
        let before = moved(old, w, h, s, i - 1);
        let now = moved(old, w, h, s, i);
        let t = target(w, h, q % w, q / w, s.diff());
        assert(t == front(w, h, s, q));
        lemma_front_behind(w, h, s, q);
        assert forall|p: int| 0 <= p < old.len() implies #[trigger] now[p] == moved_at(
            old,
            w,
            h,
            s,
            i,
            p,
        ) by {
            lemma_front_behind(w, h, s, p);
            assert(before[p] == moved_at(old, w, h, s, i - 1, p));
        }
    }
}

/// The herd has moved as `shifted` says once every place has been looked
/// at.
pub proof fn lemma_moved(old: Seq<Space>, w: int, h: int, s: Space)
    requires
        w > 0,
        h > 0,
        old.len() == w * h,
        s != Space::Empty,
    ensures
        moved(old, w, h, s, old.len() as int) == shifted(old, w, h, s),
{
    lemma_moved_upto(old, w, h, s, old.len() as int);
    let now = moved(old, w, h, s, old.len() as int);
    assert forall|p: int| 0 <= p < old.len() implies now[p] == shifted_at(old, w, h, s, p) by {
        lemma_front_behind(w, h, s, p);
        assert(now[p] == moved_at(old, w, h, s, old.len() as int, p));
    }
    assert(now =~= shifted(old, w, h, s));
}

/// Something moves among the places before `i` just when one of them
/// holds a sea cucumber that leaves.
pub proof fn lemma_any_moves(old: Seq<Space>, w: int, h: int, s: Space, i: int)
    requires
        0 <= i,
    ensures
        any_moves(old, w, h, s, i) <==> exists|p: int| 0 <= p < i && leaves(old, w, h, s, p),
    decreases i,
{
    if i > 0 {
        lemma_any_moves(old, w, h, s, i - 1);
        if any_moves(old, w, h, s, i) {
            if any_moves(old, w, h, s, i - 1) {
                let p = choose|p: int| 0 <= p < i - 1 && leaves(old, w, h, s, p);
                assert(0 <= p < i && leaves(old, w, h, s, p));
            } else {
                assert(leaves(old, w, h, s, i - 1));
            }
        }
        if exists|p: int| 0 <= p < i && leaves(old, w, h, s, p) {
            let p = choose|p: int| 0 <= p < i && leaves(old, w, h, s, p);
            if p < i - 1 {
                assert(any_moves(old, w, h, s, i - 1));
            }
        }
    }
}

/// Whether some sea cucumber of the herd `s` has a free place in front of
/// it.
pub open spec fn herd_stirs(old: Seq<Space>, w: int, h: int, s: Space) -> bool {
    exists|p: int| 0 <= p < old.len() && leaves(old, w, h, s, p)
}

/// The floor after one step: the herd that moves right has moved, then
/// the herd that moves down.
pub open spec fn stepped(data: Seq<Space>, w: int, h: int) -> Seq<Space> {
    shifted(shifted(data, w, h, Space::Right), w, h, Space::Down)
}

/// Whether a step moves any sea cucumber.
pub open spec fn stirs(data: Seq<Space>, w: int, h: int) -> bool {
    herd_stirs(data, w, h, Space::Right) || herd_stirs(
        shifted(data, w, h, Space::Right),
        w,
        h,
        Space::Down,
    )
}

impl Grid {
    /// Whether the floor has a place for every column of every row.
    pub open spec fn wf(&self) -> bool {
        self.width > 0 && self.height > 0 && self.data.len() == self.width * self.height
    }

    /// Brings coordinates back onto the floor, whose edges are joined.
    pub fn correct_coords(&self, x: usize, y: usize) -> (r: (usize, usize))
        requires
            self.width > 0,
            self.height > 0,
        ensures
            r == ((x % self.width) as usize, (y % self.height) as usize),
    {
        let y = y % self.height;
        let x = x % self.width;
        (x, y)
    }

    /// Whether the place holds a sea cucumber; the edges are joined.
    pub fn is_occupied(&self, x: usize, y: usize) -> (r: bool)
        requires
            self.wf(),
        ensures
            r == (self.data@[(y % self.height) * self.width + x % self.width] != Space::Empty),
    {
        proof {
            lemma_mod_range(x as int, self.width as int);
            lemma_mod_range(y as int, self.height as int);
        }
        let (x, y) = self.correct_coords(x, y);
        proof {
            lemma_cell_index(self.width as int, self.height as int, x as int, y as int);
        }
        self.data[y * self.width + x] != Space::Empty
    }

    /// Puts `s` on the place; the edges are joined.
    pub fn set(&mut self, x: usize, y: usize, s: Space)
        requires
            old(self).wf(),
        ensures
            final(self).width == old(self).width,
            final(self).height == old(self).height,
            final(self).wf(),
            final(self).data@ == old(self).data@.update(
                (y % old(self).height) * old(self).width + x % old(self).width,
                s,
            ),
    {
        proof {
            lemma_mod_range(x as int, self.width as int);
            lemma_mod_range(y as int, self.height as int);
        }
        let (x, y) = self.correct_coords(x, y);
        proof {
            lemma_cell_index(self.width as int, self.height as int, x as int, y as int);
        }
        let w = self.width;
        self.data.set(y * w + x, s);
    }

    /// Lets the herd `s` move: every sea cucumber of it that has a free
    /// place in front of it, as the floor stood before, takes one step.
    /// As many sea cucumbers of each herd, and as many free places, are
    /// on the floor afterwards as before. Returns whether any of them
    /// moved.
    pub fn tick_space(&mut self, s: Space) -> (did_move: bool)
        requires
            old(self).wf(),
            s != Space::Empty,
        ensures
            final(self).wf(),
            final(self).width == old(self).width,
            final(self).height == old(self).height,
            final(self).data@ == shifted(
                old(self).data@,
                old(self).width as int,
                old(self).height as int,
                s,
            ),
            did_move == herd_stirs(
                old(self).data@,
                old(self).width as int,
                old(self).height as int,
                s,
            ),
            forall|k: Space| #[trigger]
                places(final(self).data@, k).len() == places(old(self).data@, k).len(),
    {
        let mut did_move = false;
        let n = self.data.len();
        let mut blank: Vec<Space> = Vec::new();
        let mut k: usize = 0;
        while k < n
            invariant
                k <= n,
                blank.len() == k,
                forall|j: int| 0 <= j < k ==> blank[j] == Space::Empty,
            decreases n - k,
        {
            blank.push(Space::Empty);
            k = k + 1;
        }
        let mut new_board = Grid { data: blank, width: self.width, height: self.height };
        assert(new_board.data@ =~= moved(self.data@, self.width as int, self.height as int, s, 0));
        let diff = s.get_diff();
        let w = self.width;
        let h = self.height;
        let mut y: usize = 0;
        while y < h
            invariant
                y <= h,
                self.wf(),
                *self == *old(self),
                w == self.width,
                h == self.height,
                n == self.data.len(),
                s != Space::Empty,
                diff == s.diff(),
                new_board.wf(),
                new_board.width == w,
                new_board.height == h,
                new_board.data@ == moved(self.data@, w as int, h as int, s, y * w),
                did_move == any_moves(self.data@, w as int, h as int, s, y * w),
            decreases h - y,
        {
            let mut x: usize = 0;
            while x < w
                invariant
                    x <= w,
                    y < h,
                    self.wf(),
                    *self == *old(self),
                    w == self.width,
                    h == self.height,
                    n == self.data.len(),
                    s != Space::Empty,
                    diff == s.diff(),
                    new_board.wf(),
                    new_board.width == w,
                    new_board.height == h,
                    new_board.data@ == moved(self.data@, w as int, h as int, s, y * w + x),
                    did_move == any_moves(self.data@, w as int, h as int, s, y * w + x),
                decreases w - x,
            {
                proof {
                    lemma_mod_range(x as int, w as int);
                    lemma_mod_range(y as int, h as int);
                    lemma_mod_range(x + diff.0, w as int);
                    lemma_mod_range(y + diff.1, h as int);
                    lemma_cell_index(w as int, h as int, x as int, y as int);
                    lemma_cell_index(
                        w as int,
                        h as int,
                        (x + diff.0) % (w as int),
                        (y + diff.1) % (h as int),
                    );
                }
                let here = self.data[y * w + x];
                if (here == s) && !self.is_occupied(x + diff.0, y + diff.1) {
                    new_board.set(x + diff.0, y + diff.1, s);
                    did_move = true;
                } else if here != Space::Empty {
                    new_board.set(x, y, here);
                }
                x = x + 1;
            }
            proof {
                assert(y * w + w == (y + 1) * w) by (nonlinear_arith);
            }
            y = y + 1;
        }
        proof {
            assert(h * w == n) by (nonlinear_arith)
                requires
                    n == w * h,
            ;
            lemma_moved(self.data@, w as int, h as int, s);
            lemma_any_moves(self.data@, w as int, h as int, s, n as int);
            assert forall|k: Space| #[trigger]
                places(shifted(self.data@, w as int, h as int, s), k).len() == places(
                    self.data@,
                    k,
                ).len() by {
                lemma_herd_counts(self.data@, w as int, h as int, s, k);
            }
        }
        *self = new_board;
        did_move
    }

    /// One step of the whole floor: the herd that moves right goes first,
    /// then the herd that moves down. Returns whether anything moved.
    pub fn tick(&mut self) -> (moved_any: bool)
        requires
            old(self).wf(),
        ensures
            final(self).wf(),
            final(self).width == old(self).width,
            final(self).height == old(self).height,
            final(self).data@ == stepped(
                old(self).data@,
                old(self).width as int,
                old(self).height as int,
            ),
            moved_any == stirs(old(self).data@, old(self).width as int, old(self).height as int),
            forall|k: Space| #[trigger]
                places(final(self).data@, k).len() == places(old(self).data@, k).len(),
    {
        let r = self.tick_space(Space::Right);
        let d = self.tick_space(Space::Down);
        r || d
    }
}

/// The character that stands for a place on the map.
pub open spec fn letter(s: Space) -> char {
    match s {
        Space::Empty => '.',
        Space::Down => 'v',
        Space::Right => '>',
    }
}

/// Row `y` of the floor as text.
pub open spec fn row_text(data: Seq<Space>, w: int, y: int) -> Seq<char> {
    Seq::new(w as nat, |x: int| letter(data[y * w + x]))
}

/// The first `rows` rows of the floor as text, with a line feed between
/// one row and the next.
pub open spec fn picture(data: Seq<Space>, w: int, rows: int) -> Seq<char>
    decreases rows,
{
    if rows <= 0 {
        seq![]
    } else if rows == 1 {
        row_text(data, w, 0)
    } else {
        picture(data, w, rows - 1) + seq!['\n'] + row_text(data, w, rows - 1)
    }
}

impl Grid {
    /// Draws the floor.
    pub fn fmt(&self) -> (r: Vec<char>)
        requires
            self.wf(),
        ensures
            r@ == picture(self.data@, self.width as int, self.height as int),
    {
        let mut out: Vec<char> = Vec::new();
        let w = self.width;
        let mut y: usize = 0;
        while y < self.height
            invariant
                y <= self.height,
                self.wf(),
                w == self.width,
                out@ == picture(self.data@, w as int, y as int),
            decreases self.height - y,
        {
            let ghost before = out@;
            if y != 0 {
                out.push('\n');
            }
            let ghost start = out@;
            let mut x: usize = 0;
            while x < w
                invariant
                    x <= w,
                    y < self.height,
                    self.wf(),
                    w == self.width,
                    out@ == start + row_text(self.data@, w as int, y as int).subrange(0, x as int),
                decreases w - x,
            {
                proof {
                    lemma_cell_index(w as int, self.height as int, x as int, y as int);
                }
                let c = match self.data[y * w + x] {
                    Space::Empty => '.',
                    Space::Down => 'v',
                    Space::Right => '>',
                };
                out.push(c);
                assert(out@ =~= start + row_text(self.data@, w as int, y as int).subrange(
                    0,
                    x + 1,
                ));
                x = x + 1;
            }
            assert(row_text(self.data@, w as int, y as int).subrange(0, w as int) =~= row_text(
                self.data@,
                w as int,
                y as int,
            ));
            proof {
                if y == 0 {
                    assert(start =~= Seq::<char>::empty());
                    assert(out@ =~= row_text(self.data@, w as int, 0));
                } else {
                    assert(start =~= before + seq!['\n']);
                }
            }
            y = y + 1;
        }
        out
    }
}

/// The floor after `n` steps.
pub open spec fn after_steps(data: Seq<Space>, w: int, h: int, n: nat) -> Seq<Space>
    decreases n,
{
    if n == 0 {
        data
    } else {
        stepped(after_steps(data, w, h, (n - 1) as nat), w, h)
    }
}

impl Grid {
    /// Makes steps until one moves nothing, and returns the number of that
    /// step, counted from 1. At most `limit` steps are made: `None` when
    /// each of them moved something.
    pub fn settle(&mut self, limit: usize) -> (r: Option<usize>)
        requires
            old(self).wf(),
        ensures
            final(self).wf(),
            final(self).width == old(self).width,
            final(self).height == old(self).height,
            match r {
                Some(i) => 1 <= i <= limit && final(self).data@ == after_steps(
                    old(self).data@,
                    old(self).width as int,
                    old(self).height as int,
                    i as nat,
                ) && !stirs(
                    after_steps(
                        old(self).data@,
                        old(self).width as int,
                        old(self).height as int,
                        (i - 1) as nat,
                    ),
                    old(self).width as int,
                    old(self).height as int,
                ),
                None => final(self).data@ == after_steps(
                    old(self).data@,
                    old(self).width as int,
                    old(self).height as int,
                    limit as nat,
                ),
            },
            forall|k: nat|
                k < (match r {
                    Some(i) => i - 1,
                    None => limit as int,
                }) ==> stirs(
                    after_steps(
                        old(self).data@,
                        old(self).width as int,
                        old(self).height as int,
                        k,
                    ),
                    old(self).width as int,
                    old(self).height as int,
                ),
    {
        let ghost w = self.width as int;
        let ghost h = self.height as int;
        let ghost d0 = self.data@;
        let mut i: usize = 0;
        while i < limit
            invariant
                i <= limit,
                self.wf(),
                self.width == w,
                self.height == h,
                w == old(self).width,
                h == old(self).height,
                d0 == old(self).data@,
                self.data@ == after_steps(d0, w, h, i as nat),
                forall|k: nat| k < i ==> stirs(after_steps(d0, w, h, k), w, h),
            decreases limit - i,
        {
            let went = self.tick();
            i = i + 1;
            if !went {
                return Some(i);
            }
        }
        None
    }
}

} // verus!
