use vstd::prelude::*;
use vstd::string::StringExecFns;
use crate::board::{cell, Osero};
use crate::pattern::Pattern;

verus! {

/// The two characters that show one cell.
pub open spec fn cell_text(p: Pattern) -> Seq<char> {
    match p {
        Pattern::Empty => ". "@,
        Pattern::Black => "X "@,
        Pattern::White => "O "@,
    }
}

/// The label in front of row `y`.
pub open spec fn row_label(y: int) -> Seq<char> {
    if y == 0 {
        "0 "@
    } else if y == 1 {
        "1 "@
    } else if y == 2 {
        "2 "@
    } else if y == 3 {
        "3 "@
    } else if y == 4 {
        "4 "@
    } else if y == 5 {
        "5 "@
    } else if y == 6 {
        "6 "@
    } else {
        "7 "@
    }
}

/// The first `n` cells of row `y`, shown.
pub open spec fn cells_text(b: Seq<Pattern>, y: int, n: int) -> Seq<char>
    decreases n,
{
    if n <= 0 {
        Seq::empty()
    } else {
        cells_text(b, y, n - 1) + cell_text(cell(b, n - 1, y))
    }
}

/// The first `n` rows, each labelled and ended by a newline.
pub open spec fn rows_text(b: Seq<Pattern>, n: int) -> Seq<char>
    decreases n,
{
    if n <= 0 {
        Seq::empty()
    } else {
        rows_text(b, n - 1) + row_label(n - 1) + cells_text(b, n - 1, 8) + "\n"@
    }
}

pub open spec fn header_text() -> Seq<char> {
    "  0 1 2 3 4 5 6 7\n"@
}

/// The board as text: a header of column numbers, then each row with its number.
pub open spec fn rendering(b: Seq<Pattern>) -> Seq<char> {
    header_text() + rows_text(b, 8)
}

/// The full-width digit for `i` in `0..8`, empty otherwise.
pub open spec fn wide_digit(i: int) -> Seq<char> {
    if i == 0 {
        "０"@
    } else if i == 1 {
        "１"@
    } else if i == 2 {
        "２"@
    } else if i == 3 {
        "３"@
    } else if i == 4 {
        "４"@
    } else if i == 5 {
        "５"@
    } else if i == 6 {
        "６"@
    } else if i == 7 {
        "７"@
    } else {
        ""@
    }
}

/// `i` as a full-width digit, for labels; empty outside `0..8`.
pub fn index_to_str(i: i32) -> (r: String)
    ensures
        r@ == wide_digit(i as int),
{
    let s = match i {
        0 => "０",
        1 => "１",
        2 => "２",
        3 => "３",
        4 => "４",
        5 => "５",
        6 => "６",
        7 => "７",
        _ => "",
    };
    String::from_str(s)
}

fn label_of(y: usize) -> (r: &'static str)
    requires
        y < 8,
    ensures
        r@ == row_label(y as int),
{
    match y {
        0 => "0 ",
        1 => "1 ",
        2 => "2 ",
        3 => "3 ",
        4 => "4 ",
        5 => "5 ",
        6 => "6 ",
        _ => "7 ",
    }
}

fn text_of(p: Pattern) -> (r: &'static str)
    ensures
        r@ == cell_text(p),
{
    match p {
        Pattern::Empty => ". ",
        Pattern::Black => "X ",
        Pattern::White => "O ",
    }
}

impl Osero {
    /// The board as text: `.` for an empty cell, `X` for black, `O` for
    /// white, with row and column numbers.
    pub fn express(&self) -> (r: String)
        ensures
            r@ == rendering(self@),
    {
        let mut result = String::new();
        result.append("  0 1 2 3 4 5 6 7\n");
        let mut y: usize = 0;
        while y < 8
            invariant
                y <= 8,
                result@ == header_text() + rows_text(self@, y as int),
            decreases 8 - y,
        {
            let ghost start = result@;
            result.append(label_of(y));
            let mut x: usize = 0;
            while x < 8
                invariant
                    y < 8,
                    x <= 8,
                    result@ == start + row_label(y as int) + cells_text(self@, y as int, x as int),
                decreases 8 - x,
            {
                result.append(text_of(self.0[y * 8 + x]));
                assert(result@ =~= start + row_label(y as int) + cells_text(self@, y as int, x + 1));
                x += 1;
            }
            result.append("\n");
            assert(result@ =~= header_text() + rows_text(self@, y + 1));
            y += 1;
        }
        result
    }
}

} // verus!
