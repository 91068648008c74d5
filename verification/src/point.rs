//! Board coordinates and placed discs.

use vstd::prelude::*;
use crate::Color;

verus! {

/// A cell coordinate. Playable cells have `x` and `y` in `1..=8`; the
/// surrounding border ring (coordinate 0 or 9) holds the Wall sentinel.
#[derive(Clone, Copy, PartialEq, Eq, Structural, Debug)]
pub struct Point {
    pub x: usize,
    pub y: usize,
}

/// A point paired with a color: a placed or to-be-placed piece.
#[derive(Clone, Copy, PartialEq, Eq, Structural, Debug)]
pub struct Disc {
    pub color: Color,
    pub point: Point,
}

/// The column 1..=8 written by a letter 'a'..='h', or 0 for any other
/// character.
pub open spec fn col_of(ch: char) -> int {
    if ch == 'a' {
        1
    } else if ch == 'b' {
        2
    } else if ch == 'c' {
        3
    } else if ch == 'd' {
        4
    } else if ch == 'e' {
        5
    } else if ch == 'f' {
        6
    } else if ch == 'g' {
        7
    } else if ch == 'h' {
        8
    } else {
        0
    }
}

/// The row 1..=8 written by a digit '1'..='8', or 0 for any other
/// character.
pub open spec fn row_of(ch: char) -> int {
    if ch == '1' {
        1
    } else if ch == '2' {
        2
    } else if ch == '3' {
        3
    } else if ch == '4' {
        4
    } else if ch == '5' {
        5
    } else if ch == '6' {
        6
    } else if ch == '7' {
        7
    } else if ch == '8' {
        8
    } else {
        0
    }
}

/// The letter of column `x`.
pub open spec fn col_char(x: int) -> char {
    if x == 1 {
        'a'
    } else if x == 2 {
        'b'
    } else if x == 3 {
        'c'
    } else if x == 4 {
        'd'
    } else if x == 5 {
        'e'
    } else if x == 6 {
        'f'
    } else if x == 7 {
        'g'
    } else {
        'h'
    }
}

/// The digit of row `y`.
pub open spec fn row_char(y: int) -> char {
    if y == 1 {
        '1'
    } else if y == 2 {
        '2'
    } else if y == 3 {
        '3'
    } else if y == 4 {
        '4'
    } else if y == 5 {
        '5'
    } else if y == 6 {
        '6'
    } else if y == 7 {
        '7'
    } else {
        '8'
    }
}

impl Point {
    pub fn new(x: usize, y: usize) -> (r: Point)
        ensures
            r == (Point { x, y }),
    {
        Point { x, y }
    }

    /// Reads a point from move notation: exactly a column letter 'a'..='h'
    /// followed by a row digit '1'..='8'; any other string is a descriptive
    /// error.
    pub fn from(s: &String) -> (r: Result<Point, String>)
        ensures
            match r {
                Ok(p) => {
                    &&& s@.len() == 2
                    &&& col_of(s@[0]) == p.x as int
                    &&& row_of(s@[1]) == p.y as int
                    &&& 1 <= p.x as int <= 8
                    &&& 1 <= p.y as int <= 8
                },
                Err(e) => {
                    if s@.len() == 0 || col_of(s@[0]) == 0 {
                        e@ == "x must be in a to h"@
                    } else if s@.len() < 2 || row_of(s@[1]) == 0 {
                        e@ == "y must be in 1 to 8"@
                    } else {
                        s@.len() > 2 && e@ == "a move is one letter and one digit"@
                    }
                },
            },
    {
        let st = s.as_str();
        let n = st.unicode_len();
        if n < 1 {
            return Err(String::from_str("x must be in a to h"));
        }
        let c0 = st.get_char(0);
        let x: usize = match c0 {
            'a' => 1,
            'b' => 2,
            'c' => 3,
            'd' => 4,
            'e' => 5,
            'f' => 6,
            'g' => 7,
            'h' => 8,
            _ => {
                return Err(String::from_str("x must be in a to h"));
            },
        };
        if n < 2 {
            return Err(String::from_str("y must be in 1 to 8"));
        }
        let c1 = st.get_char(1);
        let y: usize = match c1 {
            '1' => 1,
            '2' => 2,
            '3' => 3,
            '4' => 4,
            '5' => 5,
            '6' => 6,
            '7' => 7,
            '8' => 8,
            _ => {
                return Err(String::from_str("y must be in 1 to 8"));
            },
        };
        if n > 2 {
            return Err(String::from_str("a move is one letter and one digit"));
        }
        Ok(Point::new(x, y))
    }

    /// Writes the point in move notation: the column letter followed by the
    /// row digit, reversing the mapping that `from` reads.
    pub fn notation(&self) -> (r: String)
        requires
            1 <= self.x <= 8,
            1 <= self.y <= 8,
        ensures
            r@ == seq![col_char(self.x as int), row_char(self.y as int)],
    {
        let col = match self.x {
            1 => "a",
            2 => "b",
            3 => "c",
            4 => "d",
            5 => "e",
            6 => "f",
            7 => "g",
            _ => "h",
        };
        let row = match self.y {
            1 => "1",
            2 => "2",
            3 => "3",
            4 => "4",
            5 => "5",
            6 => "6",
            7 => "7",
            _ => "8",
        };
        proof {
            reveal_strlit("a");
            reveal_strlit("b");
            reveal_strlit("c");
            reveal_strlit("d");
            reveal_strlit("e");
            reveal_strlit("f");
            reveal_strlit("g");
            reveal_strlit("h");
            reveal_strlit("1");
            reveal_strlit("2");
            reveal_strlit("3");
            reveal_strlit("4");
            reveal_strlit("5");
            reveal_strlit("6");
            reveal_strlit("7");
            reveal_strlit("8");
        }
        let mut s = String::from_str(col);
        s.append(row);
        proof {
            assert(s@ =~= seq![col_char(self.x as int), row_char(self.y as int)]);
        }
        s
    }
}

impl Disc {
    pub fn new(point: Point, color: Color) -> (r: Disc)
        ensures
            r == (Disc { point, color }),
    {
        Disc { point, color }
    }

    pub fn x(&self) -> (r: usize)
        ensures
            r == self.point.x,
    {
        self.point.x
    }

    pub fn y(&self) -> (r: usize)
        ensures
            r == self.point.y,
    {
        self.point.y
    }
}

} // verus!
