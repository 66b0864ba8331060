use vstd::prelude::*;
use rand::seq::IndexedRandom;
use rayon::iter::{IntoParallelRefIterator, ParallelIterator};
use crate::board::{in_board, placed, putable, Osero};
use crate::game::{all_flips, count_of, lemma_counts_total, moveable_points};
use crate::laws::{lemma_flips_iff_putable, lemma_put_fills_one};
use crate::pattern::{opp, Pattern};

verus! {

/// Folds a coordinate onto the near half of the board.
pub open spec fn fold(v: int) -> int {
    if v < 4 {
        v
    } else {
        7 - v
    }
}

/// The weight of a cell in the top-left quadrant, `a <= b`.
pub open spec fn quadrant_weight(a: int, b: int) -> int {
    if a == 0 {
        if b == 0 {
            100
        } else if b == 1 {
            -20
        } else if b == 2 {
            10
        } else {
            5
        }
    } else if a == 1 {
        if b == 1 {
            -50
        } else {
            -2
        }
    } else if a == 2 {
        if b == 2 {
            5
        } else {
            1
        }
    } else {
        0
    }
}

/// The positional weight of cell `(x, y)`: corners 100, the cells touching a
/// corner -20 or -50, small values elsewhere. The table is symmetric under
/// the board's reflections.
pub open spec fn position_weight(x: int, y: int) -> int {
    let a = fold(x);
    let b = fold(y);
    if a <= b {
        quadrant_weight(a, b)
    } else {
        quadrant_weight(b, a)
    }
}

/// The static value of placing `c` at `(x, y)`.
pub open spec fn move_score(b: Seq<Pattern>, c: Pattern, x: int, y: int) -> int {
    position_weight(x, y) + all_flips(b, c, x, y) * 10
}

/// The node value of placing `c` at `(x, y)`, looking `depth` replies ahead:
/// the move's score less the opponent's best reply value on the board after
/// it (no subtraction when the opponent has no reply), and 0 for an illegal
/// placement.
pub open spec fn node_value(b: Seq<Pattern>, c: Pattern, x: int, y: int, depth: nat) -> int
    decreases depth, 0nat,
{
    if !putable(b, c, x, y) {
        0
    } else if depth == 0 {
        move_score(b, c, x, y)
    } else {
        let nb = placed(b, c, x, y);
        let pts = moveable_points(nb, opp(c));
        if pts.len() == 0 {
            move_score(b, c, x, y)
        } else {
            move_score(b, c, x, y) - best_reply(nb, opp(c), pts, (depth - 1) as nat)
        }
    }
}

/// The largest node value among the moves `pts` of `c` at `depth`.
pub open spec fn best_reply(b: Seq<Pattern>, c: Pattern, pts: Seq<(usize, usize)>, depth: nat) -> int
    decreases depth, pts.len(),
{
    if pts.len() == 0 {
        i32::MIN as int
    } else {
        let rest = best_reply(b, c, pts.drop_last(), depth);
        let v = node_value(b, c, pts.last().0 as int, pts.last().1 as int, depth);
        if pts.len() == 1 || v > rest {
            v
        } else {
            rest
        }
    }
}

/// The largest of the first `n` scores (`n >= 1`).
pub open spec fn max_upto(s: Seq<int>, n: int) -> int
    decreases n,
{
    if n <= 1 {
        s[0]
    } else if s[n - 1] > max_upto(s, n - 1) {
        s[n - 1]
    } else {
        max_upto(s, n - 1)
    }
}

/// The points among the first `n` whose score is `m`, in order.
pub open spec fn keep_at(p: Seq<(usize, usize)>, s: Seq<int>, m: int, n: int) -> Seq<(usize, usize)>
    decreases n,
{
    if n <= 0 {
        Seq::empty()
    } else if s[n - 1] == m {
        keep_at(p, s, m, n - 1).push(p[n - 1])
    } else {
        keep_at(p, s, m, n - 1)
    }
}

/// The points whose score is the largest, in order; empty when there are none.
pub open spec fn maximizers(p: Seq<(usize, usize)>, s: Seq<int>) -> Seq<(usize, usize)> {
    if p.len() == 0 {
        Seq::empty()
    } else {
        keep_at(p, s, max_upto(s, p.len() as int), p.len() as int)
    }
}

pub open spec fn as_ints(s: Seq<i32>) -> Seq<int> {
    s.map_values(|v: i32| v as int)
}

/// The score that difficulty `level` gives each legal move of `c`: its flip
/// count at level 1, its node value `level - 1` replies deep above that.
pub open spec fn level_scores(b: Seq<Pattern>, c: Pattern, level: nat) -> Seq<int> {
    let pts = moveable_points(b, c);
    Seq::new(
        pts.len(),
        |k: int|
            if level <= 1 {
                all_flips(b, c, pts[k].0 as int, pts[k].1 as int)
            } else {
                node_value(b, c, pts[k].0 as int, pts[k].1 as int, (level - 1) as nat)
            },
    )
}

/// The moves among which difficulty `level` picks uniformly: the legal moves
/// of `c` with the best score.
pub open spec fn best_moves(b: Seq<Pattern>, c: Pattern, level: nat) -> Seq<(usize, usize)> {
    maximizers(moveable_points(b, c), level_scores(b, c, level))
}

/// The largest score is one of the scores, and no score exceeds it.
pub proof fn lemma_max_upto(s: Seq<int>, n: int)
    requires
        1 <= n <= s.len(),
    ensures
        exists|j: int| 0 <= j < n && s[j] == max_upto(s, n),
        forall|j: int| 0 <= j < n ==> s[j] <= max_upto(s, n),
    decreases n,
{
    if n > 1 {
        lemma_max_upto(s, n - 1);
        if s[n - 1] <= max_upto(s, n - 1) {
            let j = choose|j: int| 0 <= j < n - 1 && s[j] == max_upto(s, n - 1);
            assert(s[j] == max_upto(s, n));
        } else {
            assert(s[n - 1] == max_upto(s, n));
        }
    } else {
        assert(s[0] == max_upto(s, n));
    }
}

proof fn lemma_keep_at_empty(p: Seq<(usize, usize)>, s: Seq<int>, m: int, n: int)
    requires
        forall|j: int| 0 <= j < n ==> s[j] != m,
    ensures
        keep_at(p, s, m, n).len() == 0,
    decreases n,
{
    if n > 0 {
        lemma_keep_at_empty(p, s, m, n - 1);
    }
}

proof fn lemma_keep_at_members(p: Seq<(usize, usize)>, s: Seq<int>, m: int, n: int, j: int)
    requires
        0 <= j < n <= p.len(),
        n <= s.len(),
        s[j] == m,
    ensures
        keep_at(p, s, m, n).contains(p[j]),
    decreases n,
{
    if j < n - 1 {
        lemma_keep_at_members(p, s, m, n - 1, j);
        let prev = keep_at(p, s, m, n - 1);
        let k = choose|k: int| 0 <= k < prev.len() && prev[k] == p[j];
        assert(keep_at(p, s, m, n)[k] == p[j]);
    } else {
        assert(keep_at(p, s, m, n).last() == p[j]);
    }
}

proof fn lemma_keep_at_subset(p: Seq<(usize, usize)>, s: Seq<int>, m: int, n: int, k: int)
    requires
        0 <= k < keep_at(p, s, m, n).len(),
    ensures
        exists|j: int| 0 <= j < n && s[j] == m && p[j] == #[trigger] keep_at(p, s, m, n)[k],
    decreases n,
{
    if n > 0 {
        let prev = keep_at(p, s, m, n - 1);
        if k < prev.len() {
            lemma_keep_at_subset(p, s, m, n - 1, k);
            let j = choose|j: int| 0 <= j < n - 1 && s[j] == m && p[j] == prev[k];
            assert(p[j] == keep_at(p, s, m, n)[k]);
        }
    }
}

/// The best points are exactly the points with the largest score: each
/// listed point has it, each point that has it is listed, and there is one
/// whenever there are points.
pub proof fn lemma_maximizers(p: Seq<(usize, usize)>, s: Seq<int>)
    requires
        p.len() == s.len(),
    ensures
        p.len() > 0 ==> maximizers(p, s).len() > 0,
        forall|k: int|
            0 <= k < maximizers(p, s).len() ==> exists|j: int|
                0 <= j < p.len() && p[j] == #[trigger] maximizers(p, s)[k] && forall|i: int|
                    0 <= i < p.len() ==> s[i] <= s[j],
        forall|j: int|
            0 <= j < p.len() && (forall|i: int| 0 <= i < p.len() ==> s[i] <= s[j]) ==> maximizers(
                p,
                s,
            ).contains(#[trigger] p[j]),
{
    let n = p.len() as int;
    if n > 0 {
        let m = max_upto(s, n);
        lemma_max_upto(s, n);
        let j = choose|j: int| 0 <= j < n && s[j] == m;
        lemma_keep_at_members(p, s, m, n, j);
        assert forall|k: int| 0 <= k < maximizers(p, s).len() implies exists|j: int|
            0 <= j < p.len() && p[j] == #[trigger] maximizers(p, s)[k] && forall|i: int|
                0 <= i < p.len() ==> s[i] <= s[j] by {
            lemma_keep_at_subset(p, s, m, n, k);
        }
        assert forall|j: int|
            0 <= j < p.len() && (forall|i: int| 0 <= i < p.len() ==> s[i] <= s[j]) implies maximizers(
            p,
            s,
        ).contains(#[trigger] p[j]) by {
            let j0 = choose|j0: int| 0 <= j0 < n && s[j0] == m;
            assert(s[j0] <= s[j]);
            lemma_keep_at_members(p, s, m, n, j);
        }
    }
}

/// The points with the largest score, in their order: the reduce step shared
/// by both difficulty tiers.
pub fn best_candidates(points: &Vec<(usize, usize)>, scores: &Vec<i32>) -> (r: Vec<(usize, usize)>)
    requires
        points.len() == scores.len(),
    ensures
        r@ == maximizers(points@, as_ints(scores@)),
{
    let ghost s = as_ints(scores@);
    let mut best_score: i32 = i32::MIN;
    let mut best_moves: Vec<(usize, usize)> = Vec::new();
    let mut i: usize = 0;
    while i < scores.len()
        invariant
            points.len() == scores.len(),
            s == as_ints(scores@),
            i <= scores.len(),
            i == 0 ==> best_moves@.len() == 0 && best_score == i32::MIN,
            i > 0 ==> best_score == max_upto(s, i as int) && best_moves@ == keep_at(
                points@,
                s,
                best_score as int,
                i as int,
            ),
        decreases scores.len() - i,
    {
        let score = scores[i];
        if i > 0 {
            proof {
                lemma_max_upto(s, i as int);
            }
        }
        if score > best_score {
            proof {
                lemma_keep_at_empty(points@, s, score as int, i as int);
            }
            best_score = score;
            best_moves = Vec::new();
            best_moves.push(points[i]);
            assert(best_moves@ =~= keep_at(points@, s, best_score as int, i + 1));
        } else if score == best_score {
            if i == 0 {
                proof {
                    lemma_keep_at_empty(points@, s, score as int, 0);
                }
            }
            best_moves.push(points[i]);
        }
        i += 1;
    }
    best_moves
}

/// The weight of the cell `at` in the positional table.
pub fn position_score(at: (usize, usize)) -> (r: i32)
    requires
        in_board(at.0 as int, at.1 as int),
    ensures
        r == position_weight(at.0 as int, at.1 as int),
        -50 <= r <= 100,
{
    let a = if at.0 < 4 {
        at.0
    } else {
        7 - at.0
    };
    let b = if at.1 < 4 {
        at.1
    } else {
        7 - at.1
    };
    let (lo, hi) = if a <= b {
        (a, b)
    } else {
        (b, a)
    };
    if lo == 0 {
        if hi == 0 {
            100
        } else if hi == 1 {
            -20
        } else if hi == 2 {
            10
        } else {
            5
        }
    } else if lo == 1 {
        if hi == 1 {
            -50
        } else {
            -2
        }
    } else if lo == 2 {
        if hi == 2 {
            5
        } else {
            1
        }
    } else {
        0
    }
}

/// No move scores outside `-50..=660`.
proof fn lemma_move_score_bound(b: Seq<Pattern>, c: Pattern, x: int, y: int)
    requires
        in_board(x, y),
    ensures
        -50 <= move_score(b, c, x, y) <= 660,
{
    lemma_flips_iff_putable(b, c, x, y);
    assert(-50 <= position_weight(x, y) <= 100);
}

/// Node values are bounded by the number of empty cells, since every move
/// fills one.
proof fn lemma_node_bound(b: Seq<Pattern>, c: Pattern, x: int, y: int, depth: nat)
    requires
        b.len() == 64,
    ensures
        -660 * count_of(b, Pattern::Empty) <= node_value(b, c, x, y, depth) <= 660 * count_of(
            b,
            Pattern::Empty,
        ),
    decreases depth, 0nat,
{
    if putable(b, c, x, y) {
        lemma_move_score_bound(b, c, x, y);
        lemma_put_fills_one(b, c, x, y);
        if depth > 0 {
            let nb = placed(b, c, x, y);
            let pts = moveable_points(nb, opp(c));
            if pts.len() > 0 {
                lemma_reply_bound(nb, opp(c), pts, (depth - 1) as nat);
            }
        }
    }
}

proof fn lemma_reply_bound(b: Seq<Pattern>, c: Pattern, pts: Seq<(usize, usize)>, depth: nat)
    requires
        b.len() == 64,
        pts.len() > 0,
    ensures
        -660 * count_of(b, Pattern::Empty) <= best_reply(b, c, pts, depth) <= 660 * count_of(
            b,
            Pattern::Empty,
        ),
    decreases depth, pts.len(),
{
    lemma_node_bound(b, c, pts.last().0 as int, pts.last().1 as int, depth);
    if pts.len() > 1 {
        lemma_reply_bound(b, c, pts.drop_last(), depth);
    }
}

/// Relies on rayon's `par_iter().map(..).collect()` into a `Vec`: one result
/// per point, in the points' order; each result is computed by
/// `get_total_score`.
#[verifier::external_body]
fn total_scores(board: &Osero, with: Pattern, points: &Vec<(usize, usize)>, depth: usize) -> (r: Vec<i32>)
    ensures
        r.len() == points.len(),
        forall|k: int|
            0 <= k < points.len() ==> r@[k] == node_value(
                board@,
                with,
                points@[k].0 as int,
                points@[k].1 as int,
                depth as nat,
            ),
{
    points.par_iter().map(|at| board.get_total_score(with, *at, depth)).collect()
}

/// Relies on rand's `IndexedRandom::choose` with `rand::rng()`: `None` for an
/// empty slice, otherwise one of its elements.
#[verifier::external_body]
fn choose_one(moves: &Vec<(usize, usize)>) -> (r: Option<(usize, usize)>)
    ensures
        r is None <==> moves.len() == 0,
        r matches Some(p) ==> moves@.contains(p),
{
    let mut rng = rand::rng();
    moves.choose(&mut rng).copied()
}

impl Osero {
    /// The computer's move for `with` at difficulty `level`: a uniformly
    /// chosen move among the best ones, or `None` when `with` must pass.
    pub fn best_move(&self, with: Pattern, level: usize) -> (r: Option<(usize, usize)>)
        requires
            level >= 1,
        ensures
            r is None <==> moveable_points(self@, with).len() == 0,
            r matches Some(p) ==> best_moves(self@, with, level as nat).contains(p),
    {
        if level == 1 {
            self.level1(with)
        } else {
            self.minimax(level - 1, with)
        }
    }

    /// Greedy choice: a legal move of `with` that flips the most stones, ties
    /// broken uniformly; `None` when there is no legal move.
    pub fn level1(&self, with: Pattern) -> (r: Option<(usize, usize)>)
        ensures
            r is None <==> moveable_points(self@, with).len() == 0,
            r matches Some(p) ==> best_moves(self@, with, 1).contains(p),
    {
        let points = self.get_moveable_points(with);
        let mut scores: Vec<i32> = Vec::new();
        let mut k: usize = 0;
        while k < points.len()
            invariant
                points@ == moveable_points(self@, with),
                k <= points.len(),
                scores.len() == k,
                forall|j: int| 0 <= j < k ==> #[trigger] scores@[j] == level_scores(self@, with, 1)[j],
            decreases points.len() - k,
        {
            let at = points[k];
            proof {
                lemma_flips_iff_putable(self@, with, at.0 as int, at.1 as int);
            }
            let flips = self.count_all_flips(with, at);
            scores.push(flips as i32);
            k += 1;
        }
        let ghost s = level_scores(self@, with, 1);
        assert(as_ints(scores@) =~= s);
        let best_moves = best_candidates(&points, &scores);
        proof {
            lemma_maximizers(points@, s);
        }
        choose_one(&best_moves)
    }

    /// The node value of placing `with` at `at`, looking `depth` replies
    /// ahead; 0 for an illegal placement.
    pub fn get_total_score(&self, with: Pattern, at: (usize, usize), depth: usize) -> (r: i32)
        ensures
            r == node_value(self@, with, at.0 as int, at.1 as int, depth as nat),
        decreases depth,
    {
        if !self.is_putabele(with, at) {
            return 0;
        }
        let ghost b = self@;
        let mut osero = self.clone();
        proof {
            lemma_move_score_bound(b, with, at.0 as int, at.1 as int);
            lemma_put_fills_one(b, with, at.0 as int, at.1 as int);
            lemma_flips_iff_putable(b, with, at.0 as int, at.1 as int);
            lemma_counts_total(b);
        }
        let position_score = position_score(at);
        let score = self.count_all_flips(with, at) as i32 * 10 + position_score;
        osero.put(with, at);
        let ghost nb = osero@;
        let points = osero.get_moveable_points(with.fliped());
        if depth > 0 {
            let mut depth_max_score: i32 = i32::MIN;
            if points.len() == 0 {
                depth_max_score = 0;
            } else {
                let mut k: usize = 0;
                while k < points.len()
                    invariant
                        osero@ == nb,
                        nb.len() == 64,
                        points@ == moveable_points(nb, opp(with)),
                        k <= points.len(),
                        depth > 0,
                        k > 0 ==> depth_max_score == best_reply(
                            nb,
                            opp(with),
                            points@.take(k as int),
                            (depth - 1) as nat,
                        ),
                        k > 0 ==> -660 * count_of(nb, Pattern::Empty) <= depth_max_score <= 660
                            * count_of(nb, Pattern::Empty),
                        k == 0 ==> depth_max_score == i32::MIN,
                        count_of(nb, Pattern::Empty) < 64,
                    decreases points.len() - k,
                {
                    let at2 = points[k];
                    let score = osero.get_total_score(with.fliped(), at2, depth - 1);
                    proof {
                        assert(points@.take(k + 1).drop_last() =~= points@.take(k as int));
                        lemma_reply_bound(nb, opp(with), points@.take(k + 1), (depth - 1) as nat);
                    }
                    if score > depth_max_score {
                        depth_max_score = score;
                    }
                    k += 1;
                }
                assert(points@.take(k as int) =~= points@);
            }
            score - depth_max_score
        } else {
            score
        }
    }

    /// Tree search `depth` replies deep: a move of `with` with the best node
    /// value, ties broken uniformly; `None` when there is no legal move.
    fn minimax(&self, depth: usize, with: Pattern) -> (r: Option<(usize, usize)>)
        requires
            depth >= 1,
        ensures
            r is None <==> moveable_points(self@, with).len() == 0,
            r matches Some(p) ==> best_moves(self@, with, (depth + 1) as nat).contains(p),
    {
        let osero = self.clone();
        let points = osero.get_moveable_points(with);
        let scores = total_scores(&osero, with, &points, depth);
        let ghost s = level_scores(self@, with, (depth + 1) as nat);
        assert(as_ints(scores@) =~= s);
        let best_moves = best_candidates(&points, &scores);
        proof {
            lemma_maximizers(points@, s);
        }
        choose_one(&best_moves)
    }
}

} // verus!
