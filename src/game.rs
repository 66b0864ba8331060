use vstd::prelude::*;
use crate::board::{
    Axis, axis_dx, axis_dy, cell, col, in_board, lemma_coords, putable, ray, row,
    Osero,
};
use crate::line::{count_flips, flip_count, lemma_flip_count_range};
use crate::pattern::Pattern;

verus! {

/// How many cells of `s` hold `p`.
pub open spec fn count_of(s: Seq<Pattern>, p: Pattern) -> nat
    decreases s.len(),
{
    if s.len() == 0 {
        0
    } else {
        count_of(s.drop_last(), p) + if s.last() == p {
            1nat
        } else {
            0nat
        }
    }
}

/// Some cell is a legal placement for `c`.
pub open spec fn moveable(b: Seq<Pattern>, c: Pattern) -> bool {
    exists|x: int, y: int| #[trigger] putable(b, c, x, y)
}

/// No empty cell is left, or neither color can move.
pub open spec fn finished(b: Seq<Pattern>) -> bool {
    count_of(b, Pattern::Empty) == 0 || (!moveable(b, Pattern::Black) && !moveable(b, Pattern::White))
}

/// The color with strictly more stones; `None` on a draw.
pub open spec fn winner(b: Seq<Pattern>) -> Option<Pattern> {
    if count_of(b, Pattern::Black) > count_of(b, Pattern::White) {
        Some(Pattern::Black)
    } else if count_of(b, Pattern::Black) < count_of(b, Pattern::White) {
        Some(Pattern::White)
    } else {
        None
    }
}

/// The legal placements for `c` among the first `n` cells, in row-major order.
pub open spec fn points_upto(b: Seq<Pattern>, c: Pattern, n: int) -> Seq<(usize, usize)>
    decreases n,
{
    if n <= 0 {
        Seq::empty()
    } else {
        let rest = points_upto(b, c, n - 1);
        if putable(b, c, col(n - 1), row(n - 1)) {
            rest.push((col(n - 1) as usize, row(n - 1) as usize))
        } else {
            rest
        }
    }
}

/// All legal placements for `c`, in row-major order (`y` outer, `x` inner).
pub open spec fn moveable_points(b: Seq<Pattern>, c: Pattern) -> Seq<(usize, usize)> {
    points_upto(b, c, 64)
}

/// Stones flipped along both directions of the axis `(dx, dy)`.
pub open spec fn axis_flips(b: Seq<Pattern>, c: Pattern, x: int, y: int, dx: int, dy: int) -> int {
    flip_count(ray(b, x, y, -dx, -dy), c) + flip_count(ray(b, x, y, dx, dy), c)
}

/// Stones that placing `c` at `(x, y)` would flip, over all eight directions;
/// 0 unless the cell is an empty cell of the board.
pub open spec fn all_flips(b: Seq<Pattern>, c: Pattern, x: int, y: int) -> int {
    if in_board(x, y) && cell(b, x, y) == Pattern::Empty {
        axis_flips(b, c, x, y, 1, 0) + axis_flips(b, c, x, y, 0, 1) + axis_flips(b, c, x, y, 1, 1)
            + axis_flips(b, c, x, y, 1, -1)
    } else {
        0
    }
}

/// The opening position: Black on (3, 3) and (4, 4), White on (4, 3) and
/// (3, 4), the rest empty.
pub open spec fn initial_board() -> Seq<Pattern> {
    Seq::new(
        64,
        |i: int|
            if i == 3 * 8 + 3 || i == 4 * 8 + 4 {
                Pattern::Black
            } else if i == 3 * 8 + 4 || i == 4 * 8 + 3 {
                Pattern::White
            } else {
                Pattern::Empty
            },
    )
}

/// Black, white and empty cells always add up to the whole board.
pub proof fn lemma_counts_total(s: Seq<Pattern>)
    ensures
        count_of(s, Pattern::Black) + count_of(s, Pattern::White) + count_of(s, Pattern::Empty) == s.len(),
    decreases s.len(),
{
    if s.len() > 0 {
        lemma_counts_total(s.drop_last());
    }
}

/// Each listed point is a legal placement for `c`, and lies among the first `n` cells.
pub proof fn lemma_points_putable(b: Seq<Pattern>, c: Pattern, n: int, k: int)
    requires
        0 <= k < points_upto(b, c, n).len(),
    ensures
        putable(b, c, points_upto(b, c, n)[k].0 as int, points_upto(b, c, n)[k].1 as int),
    decreases n,
{
    if n > 0 {
        let rest = points_upto(b, c, n - 1);
        if k < rest.len() {
            lemma_points_putable(b, c, n - 1, k);
        }
    }
}

/// A legal placement among the first `n` cells is listed.
pub proof fn lemma_points_complete(b: Seq<Pattern>, c: Pattern, n: int, x: int, y: int)
    requires
        putable(b, c, x, y),
        y * 8 + x < n,
    ensures
        points_upto(b, c, n).contains((x as usize, y as usize)),
    decreases n,
{
    lemma_coords(x, y);
    let rest = points_upto(b, c, n - 1);
    if y * 8 + x < n - 1 {
        lemma_points_complete(b, c, n - 1, x, y);
        let k = choose|k: int| 0 <= k < rest.len() && rest[k] == (x as usize, y as usize);
        assert(points_upto(b, c, n)[k] == (x as usize, y as usize));
    } else {
        assert(points_upto(b, c, n).last() == (x as usize, y as usize));
    }
}

impl Default for Osero {
    /// The opening position.
    fn default() -> (r: Osero)
        ensures
            r@ == initial_board(),
    {
        let mut osero = Osero([Pattern::Empty; 64]);
        osero.set(Pattern::Black, (3, 3));
        osero.set(Pattern::White, (4, 3));
        osero.set(Pattern::White, (3, 4));
        osero.set(Pattern::Black, (4, 4));
        assert(osero@ =~= initial_board());
        osero
    }
}

impl Osero {
    /// The counts of black stones, white stones and empty cells.
    pub fn many(&self) -> (r: (usize, usize, usize))
        ensures
            r.0 == count_of(self@, Pattern::Black),
            r.1 == count_of(self@, Pattern::White),
            r.2 == count_of(self@, Pattern::Empty),
            r.0 + r.1 + r.2 == 64,
    {
        let mut black: usize = 0;
        let mut white: usize = 0;
        let mut none: usize = 0;
        let mut i: usize = 0;
        while i < 64
            invariant
                i <= 64,
                self@.len() == 64,
                black == count_of(self@.take(i as int), Pattern::Black),
                white == count_of(self@.take(i as int), Pattern::White),
                none == count_of(self@.take(i as int), Pattern::Empty),
            decreases 64 - i,
        {
            proof {
                lemma_counts_total(self@.take(i as int));
                assert(self@.take(i + 1).drop_last() =~= self@.take(i as int));
            }
            match self.0[i] {
                Pattern::Black => black += 1,
                Pattern::Empty => none += 1,
                Pattern::White => white += 1,
            }
            i += 1;
        }
        proof {
            assert(self@.take(64) =~= self@);
            lemma_counts_total(self@);
        }
        (black, white, none)
    }

    /// The color with more stones, or `None` on a draw.
    pub fn which_win(&self) -> (r: Option<Pattern>)
        ensures
            r == winner(self@),
    {
        let (black, white, _) = self.many();
        if black > white {
            Some(Pattern::Black)
        } else if black < white {
            Some(Pattern::White)
        } else {
            None
        }
    }

    /// Whether `with` has a legal placement anywhere on the board.
    pub fn is_moveable_with(&self, with: Pattern) -> (r: bool)
        ensures
            r == moveable(self@, with),
    {
        let mut y: usize = 0;
        while y < 8
            invariant
                y <= 8,
                forall|px: int, py: int| 0 <= py < y ==> !#[trigger] putable(self@, with, px, py),
            decreases 8 - y,
        {
            let mut x: usize = 0;
            while x < 8
                invariant
                    y < 8,
                    x <= 8,
                    forall|px: int, py: int| 0 <= py < y ==> !#[trigger] putable(self@, with, px, py),
                    forall|px: int| 0 <= px < x ==> !#[trigger] putable(self@, with, px, y as int),
                decreases 8 - x,
            {
                if self.is_putabele(with, (x, y)) {
                    return true;
                }
                x += 1;
            }
            y += 1;
        }
        false
    }

    /// Every legal placement for `with`, in row-major order.
    pub fn get_moveable_points(&self, with: Pattern) -> (r: Vec<(usize, usize)>)
        ensures
            r@ == moveable_points(self@, with),
    {
        let mut result: Vec<(usize, usize)> = Vec::new();
        let mut y: usize = 0;
        while y < 8
            invariant
                y <= 8,
                result@ == points_upto(self@, with, y * 8),
            decreases 8 - y,
        {
            let mut x: usize = 0;
            while x < 8
                invariant
                    y < 8,
                    x <= 8,
                    result@ == points_upto(self@, with, y * 8 + x),
                decreases 8 - x,
            {
                proof {
                    lemma_coords(x as int, y as int);
                }
                if self.is_putabele(with, (x, y)) {
                    result.push((x, y));
                }
                x += 1;
            }
            y += 1;
        }
        result
    }

    /// Whether the game is over: no empty cell is left, or neither color can
    /// move.
    pub fn is_finished(&self) -> (r: bool)
        ensures
            r == finished(self@),
    {
        let (_, _, none) = self.many();
        let no_empty_cells = none == 0;
        let no_moves_black = !self.is_moveable_with(Pattern::Black);
        let no_moves_white = !self.is_moveable_with(Pattern::White);
        no_empty_cells || (no_moves_black && no_moves_white)
    }

    /// How many stones placing `with` at `at` would flip, summed over the eight
    /// directions, without changing the board; 0 unless `at` is an empty cell.
    pub fn count_all_flips(&self, with: Pattern, at: (usize, usize)) -> (r: usize)
        ensures
            r == all_flips(self@, with, at.0 as int, at.1 as int),
    {
        let empty = match self.get(at) {
            Some(p) => p == Pattern::Empty,
            None => false,
        };
        if !empty {
            return 0;
        }
        let mut total: usize = 0;
        total += self.axis_flip_count(with, at, Axis::Horizontal);
        total += self.axis_flip_count(with, at, Axis::Vertical);
        total += self.axis_flip_count(with, at, Axis::UpperRight);
        total += self.axis_flip_count(with, at, Axis::DownerRight);
        total
    }

    fn axis_flip_count(&self, with: Pattern, at: (usize, usize), axis: Axis) -> (r: usize)
        requires
            in_board(at.0 as int, at.1 as int),
        ensures
            r == axis_flips(self@, with, at.0 as int, at.1 as int, axis_dx(axis), axis_dy(axis)),
            r <= 14,
    {
        let (before, after) = self.line_parts(axis, at);
        proof {
            lemma_flip_count_range(before@, with);
            lemma_flip_count_range(after@, with);
        }
        count_flips(&before, with) + count_flips(&after, with)
    }
}

} // verus!
