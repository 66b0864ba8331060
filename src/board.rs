use vstd::prelude::*;
use crate::line::{change, changeable, changed, flip_count, is_changeable};
use crate::pattern::Pattern;

verus! {

/// An 8x8 board; the cell at column `x` and row `y` is stored at `y * 8 + x`.
#[derive(Clone, Copy)]
pub struct Osero(pub [Pattern; 64]);

impl View for Osero {
    type V = Seq<Pattern>;

    open spec fn view(&self) -> Seq<Pattern> {
        self.0@
    }
}

pub open spec fn in_board(x: int, y: int) -> bool {
    0 <= x < 8 && 0 <= y < 8
}

/// The cell at column `x`, row `y` of the board `b`.
pub open spec fn cell(b: Seq<Pattern>, x: int, y: int) -> Pattern {
    b[y * 8 + x]
}

pub open spec fn col(i: int) -> int {
    i % 8
}

pub open spec fn row(i: int) -> int {
    i / 8
}

pub open spec fn sgn(v: int) -> int {
    if v > 0 {
        1
    } else if v < 0 {
        -1
    } else {
        0
    }
}

pub open spec fn abs(v: int) -> int {
    if v < 0 {
        -v
    } else {
        v
    }
}

/// Number of king steps from `(x, y)` to `(px, py)`.
pub open spec fn dist(x: int, y: int, px: int, py: int) -> int {
    if abs(px - x) < abs(py - y) {
        abs(py - y)
    } else {
        abs(px - x)
    }
}

/// One of the eight compass directions.
pub open spec fn is_dir(dx: int, dy: int) -> bool {
    -1 <= dx <= 1 && -1 <= dy <= 1 && !(dx == 0 && dy == 0)
}

/// The coordinate `v` moved `k` steps in direction `d`.
pub open spec fn step(v: int, d: int, k: int) -> int {
    if d > 0 {
        v + k
    } else if d < 0 {
        v - k
    } else {
        v
    }
}

/// How many steps from coordinate `v` in direction `d` stay on the board.
pub open spec fn reach(v: int, d: int) -> int {
    if d > 0 {
        7 - v
    } else if d < 0 {
        v
    } else {
        8
    }
}

pub open spec fn ray_len(x: int, y: int, dx: int, dy: int) -> int {
    if reach(x, dx) < reach(y, dy) {
        reach(x, dx)
    } else {
        reach(y, dy)
    }
}

/// The cells met walking from `(x, y)` in direction `(dx, dy)` to the edge,
/// nearest first, the start excluded.
pub open spec fn ray(b: Seq<Pattern>, x: int, y: int, dx: int, dy: int) -> Seq<Pattern> {
    Seq::new(
        ray_len(x, y, dx, dy) as nat,
        |i: int| cell(b, step(x, dx, i + 1), step(y, dy, i + 1)),
    )
}

/// `(px, py)` lies 1 to `n` steps from `(x, y)` in direction `(dx, dy)`.
pub open spec fn on_ray(x: int, y: int, dx: int, dy: int, px: int, py: int, n: int) -> bool {
    let s = dist(x, y, px, py);
    &&& 1 <= s <= n
    &&& px == step(x, dx, s)
    &&& py == step(y, dy, s)
}

/// `b` with `line` written along the ray from `(x, y)` in direction `(dx, dy)`,
/// nearest cell first.
pub open spec fn written(
    b: Seq<Pattern>,
    x: int,
    y: int,
    dx: int,
    dy: int,
    line: Seq<Pattern>,
) -> Seq<Pattern> {
    Seq::new(
        b.len(),
        |i: int|
            if on_ray(x, y, dx, dy, col(i), row(i), line.len() as int) {
                line[dist(x, y, col(i), row(i)) - 1]
            } else {
                b[i]
            },
    )
}

pub proof fn lemma_index(i: int)
    requires
        0 <= i < 64,
    ensures
        i == row(i) * 8 + col(i),
        in_board(col(i), row(i)),
{
}

pub proof fn lemma_coords(x: int, y: int)
    requires
        in_board(x, y),
    ensures
        col(y * 8 + x) == x,
        row(y * 8 + x) == y,
{
}

/// Every step along a ray stays on the board.
pub proof fn lemma_ray_in_board(x: int, y: int, dx: int, dy: int, s: int)
    requires
        in_board(x, y),
        is_dir(dx, dy),
        1 <= s <= ray_len(x, y, dx, dy),
    ensures
        in_board(step(x, dx, s), step(y, dy, s)),
        dist(x, y, step(x, dx, s), step(y, dy, s)) == s,
{
}

fn reach_exec(v: usize, d: isize) -> (r: usize)
    requires
        v < 8,
        -1 <= d <= 1,
    ensures
        r == reach(v as int, d as int),
{
    if d > 0 {
        7 - v
    } else if d < 0 {
        v
    } else {
        8
    }
}

fn ray_length(x: usize, y: usize, dx: isize, dy: isize) -> (r: usize)
    requires
        in_board(x as int, y as int),
        is_dir(dx as int, dy as int),
    ensures
        r == ray_len(x as int, y as int, dx as int, dy as int),
        r <= 7,
{
    let a = reach_exec(x, dx);
    let b = reach_exec(y, dy);
    if a < b {
        a
    } else {
        b
    }
}

/// The four lines through a cell. Each is walked in two directions: "before"
/// against `(axis_dx, axis_dy)` and "after" along it.
#[derive(Copy, Clone, PartialEq, Eq, Structural, Debug)]
pub enum Axis {
    Horizontal,
    Vertical,
    UpperRight,
    DownerRight,
}

pub open spec fn axis_dx(a: Axis) -> int {
    match a {
        Axis::Vertical => 0,
        _ => 1,
    }
}

pub open spec fn axis_dy(a: Axis) -> int {
    match a {
        Axis::Horizontal => 0,
        Axis::Vertical => 1,
        Axis::UpperRight => 1,
        Axis::DownerRight => -1,
    }
}

pub open spec fn axis_rank(a: Axis) -> int {
    match a {
        Axis::Horizontal => 0,
        Axis::Vertical => 1,
        Axis::UpperRight => 2,
        Axis::DownerRight => 3,
    }
}

/// The rank of the axis that holds direction `(dx, dy)`.
pub open spec fn dir_rank(dx: int, dy: int) -> int {
    if dy == 0 {
        0
    } else if dx == 0 {
        1
    } else if dx == dy {
        2
    } else {
        3
    }
}

/// Placing `c` at `(x, y)` captures in one of the two directions of the axis
/// `(dx, dy)`.
pub open spec fn axis_changeable(b: Seq<Pattern>, c: Pattern, x: int, y: int, dx: int, dy: int) -> bool {
    changeable(ray(b, x, y, -dx, -dy), c) || changeable(ray(b, x, y, dx, dy), c)
}

/// Placing `c` at `(x, y)` is legal: the cell is on the board and empty, `c` is
/// a color, and it captures along at least one of the four axes.
pub open spec fn putable(b: Seq<Pattern>, c: Pattern, x: int, y: int) -> bool {
    &&& in_board(x, y)
    &&& cell(b, x, y) == Pattern::Empty
    &&& c != Pattern::Empty
    &&& {
        ||| axis_changeable(b, c, x, y, 1, 0)
        ||| axis_changeable(b, c, x, y, 0, 1)
        ||| axis_changeable(b, c, x, y, 1, 1)
        ||| axis_changeable(b, c, x, y, 1, -1)
    }
}

/// Placing `c` at `(x, y)` flips the stone at `(px, py)`: it lies on a ray
/// from the placement, within that ray's bracketed run.
pub open spec fn flipped_by(b: Seq<Pattern>, c: Pattern, x: int, y: int, px: int, py: int) -> bool {
    let dx = sgn(px - x);
    let dy = sgn(py - y);
    on_ray(x, y, dx, dy, px, py, flip_count(ray(b, x, y, dx, dy), c))
}

/// `b` with `c` placed at `(x, y)` and every stone it brackets flipped.
pub open spec fn placed(b: Seq<Pattern>, c: Pattern, x: int, y: int) -> Seq<Pattern> {
    Seq::new(
        b.len(),
        |i: int|
            if (col(i) == x && row(i) == y) || flipped_by(b, c, x, y, col(i), row(i)) {
                c
            } else {
                b[i]
            },
    )
}

/// The board after `put(c, (x, y))`: the placement when it is legal, else `b`.
pub open spec fn put_result(b: Seq<Pattern>, c: Pattern, x: int, y: int) -> Seq<Pattern> {
    if putable(b, c, x, y) {
        placed(b, c, x, y)
    } else {
        b
    }
}

/// The placement with only the axes of rank below `n` processed.
spec fn partial(b: Seq<Pattern>, c: Pattern, x: int, y: int, n: int) -> Seq<Pattern> {
    Seq::new(
        b.len(),
        |i: int|
            if col(i) == x && row(i) == y {
                c
            } else if dir_rank(sgn(col(i) - x), sgn(row(i) - y)) < n && flipped_by(
                b,
                c,
                x,
                y,
                col(i),
                row(i),
            ) {
                c
            } else {
                b[i]
            },
    )
}

/// A ray that a partial placement has not processed yet reads as on the
/// original board.
proof fn lemma_ray_frame(b: Seq<Pattern>, c: Pattern, x: int, y: int, n: int, cur: Seq<Pattern>, dx: int, dy: int)
    requires
        in_board(x, y),
        is_dir(dx, dy),
        b.len() == 64,
        cur == partial(b, c, x, y, n),
        dir_rank(dx, dy) >= n,
    ensures
        ray(cur, x, y, dx, dy) == ray(b, x, y, dx, dy),
{
    assert forall|j: int| 0 <= j < ray_len(x, y, dx, dy) implies #[trigger] ray(cur, x, y, dx, dy)[j]
        == ray(b, x, y, dx, dy)[j] by {
        lemma_ray_in_board(x, y, dx, dy, j + 1);
        lemma_coords(step(x, dx, j + 1), step(y, dy, j + 1));
    }
    assert(ray(cur, x, y, dx, dy) =~= ray(b, x, y, dx, dy));
}

/// Writing a ray back changed sets exactly its flipped stones to `c`.
proof fn lemma_write_changed(b: Seq<Pattern>, c: Pattern, x: int, y: int, dx: int, dy: int, cur: Seq<Pattern>)
    requires
        in_board(x, y),
        is_dir(dx, dy),
        b.len() == 64,
        cur.len() == 64,
        ray(cur, x, y, dx, dy) == ray(b, x, y, dx, dy),
    ensures
        written(cur, x, y, dx, dy, changed(ray(b, x, y, dx, dy), c)).len() == 64,
        forall|i: int|
            0 <= i < 64 ==> #[trigger] written(cur, x, y, dx, dy, changed(ray(b, x, y, dx, dy), c))[i]
                == if on_ray(x, y, dx, dy, col(i), row(i), 8) && flipped_by(b, c, x, y, col(i), row(i)) {
                c
            } else {
                cur[i]
            },
{
    let l = changed(ray(b, x, y, dx, dy), c);
    assert forall|i: int| 0 <= i < 64 implies #[trigger] written(cur, x, y, dx, dy, l)[i] == if on_ray(
        x,
        y,
        dx,
        dy,
        col(i),
        row(i),
        8,
    ) && flipped_by(b, c, x, y, col(i), row(i)) {
        c
    } else {
        cur[i]
    } by {
        lemma_index(i);
        let s = dist(x, y, col(i), row(i));
        if on_ray(x, y, dx, dy, col(i), row(i), 8) {
            lemma_ray_in_board(x, y, dx, dy, s);
            assert(ray(cur, x, y, dx, dy)[s - 1] == cur[i]);
        }
    }
}

/// One cell of `lemma_process_step`.
proof fn lemma_step_cell(
    b: Seq<Pattern>,
    c: Pattern,
    x: int,
    y: int,
    dx: int,
    dy: int,
    n: int,
    i: int,
    cur_i: Pattern,
    w1_i: Pattern,
    w_i: Pattern,
)
    requires
        in_board(x, y),
        is_dir(dx, dy),
        dx >= 0,
        dx == 0 ==> dy == 1,
        n == dir_rank(dx, dy),
        b.len() == 64,
        0 <= i < 64,
        cur_i == partial(b, c, x, y, n)[i],
        w1_i == if on_ray(x, y, -dx, -dy, col(i), row(i), 8) && flipped_by(b, c, x, y, col(i), row(i)) {
            c
        } else {
            cur_i
        },
        w_i == if on_ray(x, y, dx, dy, col(i), row(i), 8) && flipped_by(b, c, x, y, col(i), row(i)) {
            c
        } else {
            w1_i
        },
    ensures
        w_i == partial(b, c, x, y, n + 1)[i],
{
    lemma_index(i);
}

/// Processing one more axis of a partial placement: its two rays still read
/// as on the original board, and writing them back changed extends the
/// placement by that axis.
proof fn lemma_process_step(b: Seq<Pattern>, c: Pattern, x: int, y: int, a: Axis, cur: Seq<Pattern>)
    requires
        in_board(x, y),
        b.len() == 64,
        cur == partial(b, c, x, y, axis_rank(a)),
    ensures
        ray(cur, x, y, -axis_dx(a), -axis_dy(a)) == ray(b, x, y, -axis_dx(a), -axis_dy(a)),
        ray(cur, x, y, axis_dx(a), axis_dy(a)) == ray(b, x, y, axis_dx(a), axis_dy(a)),
        written(
            written(
                cur,
                x,
                y,
                -axis_dx(a),
                -axis_dy(a),
                changed(ray(b, x, y, -axis_dx(a), -axis_dy(a)), c),
            ),
            x,
            y,
            axis_dx(a),
            axis_dy(a),
            changed(ray(b, x, y, axis_dx(a), axis_dy(a)), c),
        ) == partial(b, c, x, y, axis_rank(a) + 1),
{
    let dx = axis_dx(a);
    let dy = axis_dy(a);
    let n = axis_rank(a);
    lemma_ray_frame(b, c, x, y, n, cur, dx, dy);
    lemma_ray_frame(b, c, x, y, n, cur, -dx, -dy);
    lemma_write_changed(b, c, x, y, -dx, -dy, cur);
    let w1 = written(cur, x, y, -dx, -dy, changed(ray(b, x, y, -dx, -dy), c));
    assert forall|j: int| 0 <= j < ray_len(x, y, dx, dy) implies #[trigger] ray(w1, x, y, dx, dy)[j]
        == ray(b, x, y, dx, dy)[j] by {
        lemma_ray_in_board(x, y, dx, dy, j + 1);
        lemma_coords(step(x, dx, j + 1), step(y, dy, j + 1));
        assert(ray(cur, x, y, dx, dy)[j] == ray(b, x, y, dx, dy)[j]);
    }
    assert(ray(w1, x, y, dx, dy) =~= ray(b, x, y, dx, dy));
    lemma_write_changed(b, c, x, y, dx, dy, w1);
    let w = written(w1, x, y, dx, dy, changed(ray(b, x, y, dx, dy), c));
    let target = partial(b, c, x, y, n + 1);
    assert forall|i: int| 0 <= i < 64 implies w[i] == target[i] by {
        lemma_step_cell(b, c, x, y, dx, dy, n, i, cur[i], w1[i], w[i]);
    }
    assert(w =~= target);
}

impl Osero {
    /// The cell at `at`, or `None` off the board.
    pub fn get(&self, at: (usize, usize)) -> (r: Option<Pattern>)
        ensures
            in_board(at.0 as int, at.1 as int) ==> r == Some(cell(self@, at.0 as int, at.1 as int)),
            !in_board(at.0 as int, at.1 as int) ==> r is None,
    {
        if at.0 < 8 && at.1 < 8 {
            Some(self.0[at.1 * 8 + at.0])
        } else {
            None
        }
    }

    /// Writes `with` at `at`; returns whether `at` is on the board (off it,
    /// nothing changes).
    pub fn set(&mut self, with: Pattern, at: (usize, usize)) -> (r: bool)
        ensures
            r == in_board(at.0 as int, at.1 as int),
            r ==> final(self)@ == old(self)@.update(at.1 * 8 + at.0, with),
            !r ==> final(self)@ == old(self)@,
    {
        if at.0 < 8 && at.1 < 8 {
            self.0[at.1 * 8 + at.0] = with;
            true
        } else {
            false
        }
    }

    /// The cells from `(x, y)` to the edge in direction `(dx, dy)`, nearest
    /// first.
    fn ray_cells(&self, x: usize, y: usize, dx: isize, dy: isize) -> (r: Vec<Pattern>)
        requires
            in_board(x as int, y as int),
            is_dir(dx as int, dy as int),
        ensures
            r@ == ray(self@, x as int, y as int, dx as int, dy as int),
    {
        let n = ray_length(x, y, dx, dy);
        let mut r: Vec<Pattern> = Vec::new();
        let mut cx: isize = x as isize + dx;
        let mut cy: isize = y as isize + dy;
        let mut k: usize = 0;
        while k < n
            invariant
                in_board(x as int, y as int),
                is_dir(dx as int, dy as int),
                n == ray_len(x as int, y as int, dx as int, dy as int),
                k <= n,
                cx == step(x as int, dx as int, k + 1),
                cy == step(y as int, dy as int, k + 1),
                r.len() == k,
                forall|j: int|
                    0 <= j < k ==> r@[j] == ray(self@, x as int, y as int, dx as int, dy as int)[j],
            decreases n - k,
        {
            proof {
                lemma_ray_in_board(x as int, y as int, dx as int, dy as int, k + 1);
            }
            r.push(self.0[(cy as usize) * 8 + cx as usize]);
            cx = cx + dx;
            cy = cy + dy;
            k += 1;
        }
        assert(r@ =~= ray(self@, x as int, y as int, dx as int, dy as int));
        r
    }

    /// Writes `line` along the ray from `(x, y)` in direction `(dx, dy)`,
    /// nearest cell first.
    fn write_ray(&mut self, x: usize, y: usize, dx: isize, dy: isize, line: &Vec<Pattern>)
        requires
            in_board(x as int, y as int),
            is_dir(dx as int, dy as int),
            line.len() <= ray_len(x as int, y as int, dx as int, dy as int),
        ensures
            final(self)@ == written(old(self)@, x as int, y as int, dx as int, dy as int, line@),
    {
        let ghost b = self@;
        let mut cx: isize = x as isize + dx;
        let mut cy: isize = y as isize + dy;
        let mut k: usize = 0;
        assert(self@ =~= written(b, x as int, y as int, dx as int, dy as int, line@.take(0)));
        while k < line.len()
            invariant
                in_board(x as int, y as int),
                is_dir(dx as int, dy as int),
                line.len() <= ray_len(x as int, y as int, dx as int, dy as int),
                k <= line.len(),
                cx == step(x as int, dx as int, k + 1),
                cy == step(y as int, dy as int, k + 1),
                self@.len() == 64,
                b.len() == 64,
                self@ == written(b, x as int, y as int, dx as int, dy as int, line@.take(k as int)),
            decreases line.len() - k,
        {
            proof {
                lemma_ray_in_board(x as int, y as int, dx as int, dy as int, k + 1);
                lemma_coords(cx as int, cy as int);
            }
            let j: usize = (cy as usize) * 8 + cx as usize;
            self.0[j] = line[k];
            assert forall|i: int| 0 <= i < 64 implies self@[i] == written(
                b,
                x as int,
                y as int,
                dx as int,
                dy as int,
                line@.take(k + 1),
            )[i] by {
                lemma_index(i);
            }
            assert(self@ =~= written(b, x as int, y as int, dx as int, dy as int, line@.take(k + 1)));
            cx = cx + dx;
            cy = cy + dy;
            k += 1;
        }
        assert(line@.take(k as int) =~= line@);
    }

    /// The two halves of the row through `at`: leftward and rightward.
    fn get_horizontal_line_parts(&self, at: (usize, usize)) -> (r: (Vec<Pattern>, Vec<Pattern>))
        requires
            in_board(at.0 as int, at.1 as int),
        ensures
            r.0@ == ray(self@, at.0 as int, at.1 as int, -1, 0),
            r.1@ == ray(self@, at.0 as int, at.1 as int, 1, 0),
    {
        (self.ray_cells(at.0, at.1, -1, 0), self.ray_cells(at.0, at.1, 1, 0))
    }

    /// The two halves of the column through `at`: upward and downward.
    fn get_vertical_line_parts(&self, at: (usize, usize)) -> (r: (Vec<Pattern>, Vec<Pattern>))
        requires
            in_board(at.0 as int, at.1 as int),
        ensures
            r.0@ == ray(self@, at.0 as int, at.1 as int, 0, -1),
            r.1@ == ray(self@, at.0 as int, at.1 as int, 0, 1),
    {
        (self.ray_cells(at.0, at.1, 0, -1), self.ray_cells(at.0, at.1, 0, 1))
    }

    /// The two halves of the diagonal `y - x == const` through `at`.
    fn get_upper_right_line_parts(&self, at: (usize, usize)) -> (r: (Vec<Pattern>, Vec<Pattern>))
        requires
            in_board(at.0 as int, at.1 as int),
        ensures
            r.0@ == ray(self@, at.0 as int, at.1 as int, -1, -1),
            r.1@ == ray(self@, at.0 as int, at.1 as int, 1, 1),
    {
        (self.ray_cells(at.0, at.1, -1, -1), self.ray_cells(at.0, at.1, 1, 1))
    }

    /// The two halves of the diagonal `y + x == const` through `at`.
    fn get_downer_right_line_parts(&self, at: (usize, usize)) -> (r: (Vec<Pattern>, Vec<Pattern>))
        requires
            in_board(at.0 as int, at.1 as int),
        ensures
            r.0@ == ray(self@, at.0 as int, at.1 as int, -1, 1),
            r.1@ == ray(self@, at.0 as int, at.1 as int, 1, -1),
    {
        (self.ray_cells(at.0, at.1, -1, 1), self.ray_cells(at.0, at.1, 1, -1))
    }

    /// The two halves of `axis` through `at`, each nearest first.
    pub(crate) fn line_parts(&self, axis: Axis, at: (usize, usize)) -> (r: (Vec<Pattern>, Vec<Pattern>))
        requires
            in_board(at.0 as int, at.1 as int),
        ensures
            r.0@ == ray(self@, at.0 as int, at.1 as int, -axis_dx(axis), -axis_dy(axis)),
            r.1@ == ray(self@, at.0 as int, at.1 as int, axis_dx(axis), axis_dy(axis)),
    {
        match axis {
            Axis::Horizontal => self.get_horizontal_line_parts(at),
            Axis::Vertical => self.get_vertical_line_parts(at),
            Axis::UpperRight => self.get_upper_right_line_parts(at),
            Axis::DownerRight => self.get_downer_right_line_parts(at),
        }
    }

    fn set_horizontal_line(&mut self, before: &Vec<Pattern>, after: &Vec<Pattern>, at: (usize, usize))
        requires
            in_board(at.0 as int, at.1 as int),
            before.len() <= ray_len(at.0 as int, at.1 as int, -1, 0),
            after.len() <= ray_len(at.0 as int, at.1 as int, 1, 0),
        ensures
            final(self)@ == written(
                written(old(self)@, at.0 as int, at.1 as int, -1, 0, before@),
                at.0 as int,
                at.1 as int,
                1,
                0,
                after@,
            ),
    {
        self.write_ray(at.0, at.1, -1, 0, before);
        self.write_ray(at.0, at.1, 1, 0, after);
    }

    fn set_vertical_line(&mut self, before: &Vec<Pattern>, after: &Vec<Pattern>, at: (usize, usize))
        requires
            in_board(at.0 as int, at.1 as int),
            before.len() <= ray_len(at.0 as int, at.1 as int, 0, -1),
            after.len() <= ray_len(at.0 as int, at.1 as int, 0, 1),
        ensures
            final(self)@ == written(
                written(old(self)@, at.0 as int, at.1 as int, 0, -1, before@),
                at.0 as int,
                at.1 as int,
                0,
                1,
                after@,
            ),
    {
        self.write_ray(at.0, at.1, 0, -1, before);
        self.write_ray(at.0, at.1, 0, 1, after);
    }

    fn set_upper_right_line(&mut self, before: &Vec<Pattern>, after: &Vec<Pattern>, at: (usize, usize))
        requires
            in_board(at.0 as int, at.1 as int),
            before.len() <= ray_len(at.0 as int, at.1 as int, -1, -1),
            after.len() <= ray_len(at.0 as int, at.1 as int, 1, 1),
        ensures
            final(self)@ == written(
                written(old(self)@, at.0 as int, at.1 as int, -1, -1, before@),
                at.0 as int,
                at.1 as int,
                1,
                1,
                after@,
            ),
    {
        self.write_ray(at.0, at.1, -1, -1, before);
        self.write_ray(at.0, at.1, 1, 1, after);
    }

    fn set_downer_right_line(&mut self, before: &Vec<Pattern>, after: &Vec<Pattern>, at: (usize, usize))
        requires
            in_board(at.0 as int, at.1 as int),
            before.len() <= ray_len(at.0 as int, at.1 as int, -1, 1),
            after.len() <= ray_len(at.0 as int, at.1 as int, 1, -1),
        ensures
            final(self)@ == written(
                written(old(self)@, at.0 as int, at.1 as int, -1, 1, before@),
                at.0 as int,
                at.1 as int,
                1,
                -1,
                after@,
            ),
    {
        self.write_ray(at.0, at.1, -1, 1, before);
        self.write_ray(at.0, at.1, 1, -1, after);
    }

    /// Writes the two halves of `axis` through `at` back, each nearest first.
    fn set_line(&mut self, axis: Axis, before: &Vec<Pattern>, after: &Vec<Pattern>, at: (usize, usize))
        requires
            in_board(at.0 as int, at.1 as int),
            before.len() <= ray_len(at.0 as int, at.1 as int, -axis_dx(axis), -axis_dy(axis)),
            after.len() <= ray_len(at.0 as int, at.1 as int, axis_dx(axis), axis_dy(axis)),
        ensures
            final(self)@ == written(
                written(
                    old(self)@,
                    at.0 as int,
                    at.1 as int,
                    -axis_dx(axis),
                    -axis_dy(axis),
                    before@,
                ),
                at.0 as int,
                at.1 as int,
                axis_dx(axis),
                axis_dy(axis),
                after@,
            ),
    {
        match axis {
            Axis::Horizontal => self.set_horizontal_line(before, after, at),
            Axis::Vertical => self.set_vertical_line(before, after, at),
            Axis::UpperRight => self.set_upper_right_line(before, after, at),
            Axis::DownerRight => self.set_downer_right_line(before, after, at),
        }
    }

    /// Whether placing `my` at `at` captures along `axis`.
    fn is_lines_changeable(&self, my: Pattern, at: (usize, usize), axis: Axis) -> (r: bool)
        requires
            in_board(at.0 as int, at.1 as int),
        ensures
            r == axis_changeable(self@, my, at.0 as int, at.1 as int, axis_dx(axis), axis_dy(axis)),
    {
        let (before, after) = self.line_parts(axis, at);
        is_changeable(&before, my) || is_changeable(&after, my)
    }

    /// Flips, along both halves of `axis`, the stones that placing `my` at
    /// `at` brackets.
    fn process(&mut self, my: Pattern, at: (usize, usize), axis: Axis)
        requires
            in_board(at.0 as int, at.1 as int),
        ensures
            final(self)@ == written(
                written(
                    old(self)@,
                    at.0 as int,
                    at.1 as int,
                    -axis_dx(axis),
                    -axis_dy(axis),
                    changed(ray(old(self)@, at.0 as int, at.1 as int, -axis_dx(axis), -axis_dy(axis)), my),
                ),
                at.0 as int,
                at.1 as int,
                axis_dx(axis),
                axis_dy(axis),
                changed(ray(old(self)@, at.0 as int, at.1 as int, axis_dx(axis), axis_dy(axis)), my),
            ),
    {
        let (before, after) = self.line_parts(axis, at);
        let before = change(before, my);
        let after = change(after, my);
        self.set_line(axis, &before, &after, at);
    }

    /// Whether `with` may be placed at `at`.
    pub fn is_putabele(&self, with: Pattern, at: (usize, usize)) -> (r: bool)
        ensures
            r == putable(self@, with, at.0 as int, at.1 as int),
    {
        if !(at.0 < 8 && at.1 < 8) {
            return false;
        }
        let empty = match self.get(at) {
            Some(p) => p == Pattern::Empty,
            None => false,
        };
        empty && with != Pattern::Empty && (self.is_lines_changeable(with, at, Axis::Horizontal)
            || self.is_lines_changeable(with, at, Axis::Vertical)
            || self.is_lines_changeable(with, at, Axis::UpperRight)
            || self.is_lines_changeable(with, at, Axis::DownerRight))
    }

    /// Places `with` at `at` and flips every stone it brackets, along all
    /// four axes; an illegal placement leaves the board unchanged.
    pub fn put(&mut self, with: Pattern, at: (usize, usize))
        ensures
            final(self)@ == put_result(old(self)@, with, at.0 as int, at.1 as int),
    {
        if !self.is_putabele(with, at) {
            return;
        }
        let ghost b = self@;
        let ghost (x, y) = (at.0 as int, at.1 as int);
        self.set(with, at);
        proof {
            assert forall|i: int| 0 <= i < 64 implies self@[i] == partial(b, with, x, y, 0)[i] by {
                lemma_index(i);
                lemma_coords(x, y);
            }
            assert(self@ =~= partial(b, with, x, y, 0));
        }
        let ghost s = self@;
        self.process(with, at, Axis::Horizontal);
        proof {
            lemma_process_step(b, with, x, y, Axis::Horizontal, s);
        }
        let ghost s = self@;
        self.process(with, at, Axis::Vertical);
        proof {
            lemma_process_step(b, with, x, y, Axis::Vertical, s);
        }
        let ghost s = self@;
        self.process(with, at, Axis::UpperRight);
        proof {
            lemma_process_step(b, with, x, y, Axis::UpperRight, s);
        }
        let ghost s = self@;
        self.process(with, at, Axis::DownerRight);
        proof {
            lemma_process_step(b, with, x, y, Axis::DownerRight, s);
            assert(self@ =~= placed(b, with, x, y));
        }
    }
}

} // verus!
