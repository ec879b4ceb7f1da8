use vstd::prelude::*;

verus! {

/// The four kinds of amphipod.
#[derive(Copy, Clone, PartialEq, Eq, Structural, Debug, Hash)]
pub enum Color {
    Amber,
    Bronze,
    Copper,
    Desert,
}

impl Color {
    /// The number of the kind, which is also the number of its home room.
    pub open spec fn idx(self) -> int {
        match self {
            Color::Amber => 0,
            Color::Bronze => 1,
            Color::Copper => 2,
            Color::Desert => 3,
        }
    }

    /// The kind whose home is room `i`.
    pub open spec fn of_idx(i: int) -> Color {
        if i == 0 {
            Color::Amber
        } else if i == 1 {
            Color::Bronze
        } else if i == 2 {
            Color::Copper
        } else {
            Color::Desert
        }
    }

    /// The energy that one step of this kind takes.
    pub open spec fn cost(self) -> int {
        match self {
            Color::Amber => 1,
            Color::Bronze => 10,
            Color::Copper => 100,
            Color::Desert => 1000,
        }
    }

    /// The letter that stands for the kind in a diagram.
    pub open spec fn letter(self) -> char {
        match self {
            Color::Amber => 'A',
            Color::Bronze => 'B',
            Color::Copper => 'C',
            Color::Desert => 'D',
        }
    }

    /// The number of the kind.
    pub fn get_idx(&self) -> (r: usize)
        ensures
            r == self.idx(),
    {
        match self {
            Color::Amber => 0,
            Color::Bronze => 1,
            Color::Copper => 2,
            Color::Desert => 3,
        }
    }

    /// The kind with the given number.
    pub fn from_idx(idx: usize) -> (c: Color)
        requires
            idx < 4,
        ensures
            c == Color::of_idx(idx as int),
            c.idx() == idx,
    {
        if idx == 0 {
            Color::Amber
        } else if idx == 1 {
            Color::Bronze
        } else if idx == 2 {
            Color::Copper
        } else {
            Color::Desert
        }
    }

    /// The energy that one step of this kind takes.
    pub fn get_cost(&self) -> (r: u64)
        ensures
            r == self.cost(),
    {
        match self {
            Color::Amber => 1,
            Color::Bronze => 10,
            Color::Copper => 100,
            Color::Desert => 1000,
        }
    }

    /// The letter that stands for the kind.
    pub fn get_letter(&self) -> (r: char)
        ensures
            r == self.letter(),
    {
        match self {
            Color::Amber => 'A',
            Color::Bronze => 'B',
            Color::Copper => 'C',
            Color::Desert => 'D',
        }
    }
}

/// The kind that a letter of a diagram stands for.
pub open spec fn color_of_letter(c: char) -> Option<Color> {
    if c == 'A' {
        Some(Color::Amber)
    } else if c == 'B' {
        Some(Color::Bronze)
    } else if c == 'C' {
        Some(Color::Copper)
    } else if c == 'D' {
        Some(Color::Desert)
    } else {
        None
    }
}

/// The kind that a letter stands for.
pub fn parse_color(c: char) -> (r: Option<Color>)
    ensures
        r == color_of_letter(c),
        r matches Some(k) ==> k.letter() == c,
{
    if c == 'A' {
        Some(Color::Amber)
    } else if c == 'B' {
        Some(Color::Bronze)
    } else if c == 'C' {
        Some(Color::Copper)
    } else if c == 'D' {
        Some(Color::Desert)
    } else {
        None
    }
}

} // verus!
