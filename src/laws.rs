use vstd::prelude::*;
use crate::board::{
    cell, col, dist, flipped_by, in_board, lemma_coords, lemma_index, lemma_ray_in_board, placed,
    put_result, putable, ray, row, sgn,
};
use crate::game::{
    all_flips, count_of, lemma_counts_total, lemma_points_complete, lemma_points_putable, moveable,
    moveable_points,
};
use crate::line::{changeable, lemma_flip_count_range};
use crate::pattern::{opp, Pattern};

verus! {

/// On every board, black stones, white stones and empty cells add up to 64.
pub proof fn lemma_tally_total(b: Seq<Pattern>)
    requires
        b.len() == 64,
    ensures
        count_of(b, Pattern::Black) + count_of(b, Pattern::White) + count_of(b, Pattern::Empty) == 64,
{
    lemma_counts_total(b);
}

/// An illegal placement changes nothing, so the tally stays as it was.
pub proof fn lemma_illegal_put_keeps_tally(b: Seq<Pattern>, c: Pattern, x: int, y: int)
    requires
        !putable(b, c, x, y),
    ensures
        put_result(b, c, x, y) == b,
        count_of(put_result(b, c, x, y), Pattern::Black) == count_of(b, Pattern::Black),
        count_of(put_result(b, c, x, y), Pattern::White) == count_of(b, Pattern::White),
        count_of(put_result(b, c, x, y), Pattern::Empty) == count_of(b, Pattern::Empty),
{
}

/// A stone flipped by a placement held the opponent's color, and lies on a
/// ray along which the placement captures.
pub proof fn lemma_flipped_was_opponent(b: Seq<Pattern>, c: Pattern, x: int, y: int, i: int)
    requires
        b.len() == 64,
        in_board(x, y),
        0 <= i < 64,
        flipped_by(b, c, x, y, col(i), row(i)),
    ensures
        b[i] == opp(c),
        c != Pattern::Empty,
        changeable(ray(b, x, y, sgn(col(i) - x), sgn(row(i) - y)), c),
{
    lemma_index(i);
    let dx = sgn(col(i) - x);
    let dy = sgn(row(i) - y);
    let l = ray(b, x, y, dx, dy);
    let s = dist(x, y, col(i), row(i));
    lemma_flip_count_range(l, c);
    lemma_ray_in_board(x, y, dx, dy, s);
    assert(l[s - 1] == cell(b, col(i), row(i)));
    assert(l[s - 1] == opp(c));
}

/// A legal placement changes exactly the placed cell and the stones it
/// brackets: the placed cell turns from empty to the placing color, each
/// flipped stone from the opponent's color to it, and no other cell changes.
pub proof fn lemma_put_changes_exactly(b: Seq<Pattern>, c: Pattern, x: int, y: int)
    requires
        b.len() == 64,
        putable(b, c, x, y),
    ensures
        put_result(b, c, x, y).len() == 64,
        b[y * 8 + x] == Pattern::Empty,
        put_result(b, c, x, y)[y * 8 + x] == c,
        forall|i: int|
            0 <= i < 64 && i != y * 8 + x ==> (#[trigger] put_result(b, c, x, y)[i] != b[i] <==> flipped_by(
                b,
                c,
                x,
                y,
                col(i),
                row(i),
            )),
        forall|i: int|
            0 <= i < 64 && #[trigger] flipped_by(b, c, x, y, col(i), row(i)) ==> b[i] == opp(c)
                && put_result(b, c, x, y)[i] == c && changeable(
                ray(b, x, y, sgn(col(i) - x), sgn(row(i) - y)),
                c,
            ),
{
    lemma_coords(x, y);
    assert forall|i: int|
        0 <= i < 64 && #[trigger] flipped_by(b, c, x, y, col(i), row(i)) implies b[i] == opp(c)
            && put_result(b, c, x, y)[i] == c && changeable(
            ray(b, x, y, sgn(col(i) - x), sgn(row(i) - y)),
            c,
        ) by {
        lemma_flipped_was_opponent(b, c, x, y, i);
    }
    assert forall|i: int| 0 <= i < 64 && i != y * 8 + x implies (#[trigger] put_result(
        b,
        c,
        x,
        y,
    )[i] != b[i] <==> flipped_by(b, c, x, y, col(i), row(i))) by {
        lemma_index(i);
        if flipped_by(b, c, x, y, col(i), row(i)) {
            lemma_flipped_was_opponent(b, c, x, y, i);
        }
    }
}

proof fn lemma_count_same(s1: Seq<Pattern>, s2: Seq<Pattern>, p: Pattern)
    requires
        s1.len() == s2.len(),
        forall|i: int| 0 <= i < s1.len() ==> (s1[i] == p <==> s2[i] == p),
    ensures
        count_of(s1, p) == count_of(s2, p),
    decreases s1.len(),
{
    if s1.len() > 0 {
        lemma_count_same(s1.drop_last(), s2.drop_last(), p);
    }
}

proof fn lemma_count_one_less(s1: Seq<Pattern>, s2: Seq<Pattern>, p: Pattern, j: int)
    requires
        s1.len() == s2.len(),
        0 <= j < s1.len(),
        s1[j] == p,
        s2[j] != p,
        forall|i: int| 0 <= i < s1.len() && i != j ==> (s1[i] == p <==> s2[i] == p),
    ensures
        count_of(s2, p) + 1 == count_of(s1, p),
    decreases s1.len(),
{
    if j == s1.len() - 1 {
        lemma_count_same(s1.drop_last(), s2.drop_last(), p);
    } else {
        lemma_count_one_less(s1.drop_last(), s2.drop_last(), p, j);
    }
}

/// Every legal placement fills exactly one empty cell.
pub proof fn lemma_put_fills_one(b: Seq<Pattern>, c: Pattern, x: int, y: int)
    requires
        b.len() == 64,
        putable(b, c, x, y),
    ensures
        count_of(b, Pattern::Empty) >= 1,
        count_of(placed(b, c, x, y), Pattern::Empty) + 1 == count_of(b, Pattern::Empty),
{
    lemma_put_changes_exactly(b, c, x, y);
    lemma_count_one_less(b, placed(b, c, x, y), Pattern::Empty, y * 8 + x);
}

/// Placing a color flips at least one stone exactly when the placement is
/// legal.
pub proof fn lemma_flips_iff_putable(b: Seq<Pattern>, c: Pattern, x: int, y: int)
    ensures
        0 <= all_flips(b, c, x, y) <= 56,
        c != Pattern::Empty ==> (all_flips(b, c, x, y) > 0 <==> putable(b, c, x, y)),
{
    if in_board(x, y) {
        lemma_flip_count_range(ray(b, x, y, -1, 0), c);
        lemma_flip_count_range(ray(b, x, y, 1, 0), c);
        lemma_flip_count_range(ray(b, x, y, 0, -1), c);
        lemma_flip_count_range(ray(b, x, y, 0, 1), c);
        lemma_flip_count_range(ray(b, x, y, -1, -1), c);
        lemma_flip_count_range(ray(b, x, y, 1, 1), c);
        lemma_flip_count_range(ray(b, x, y, -1, 1), c);
        lemma_flip_count_range(ray(b, x, y, 1, -1), c);
    }
}

/// A color can move exactly when its list of legal placements is not empty,
/// so an empty list means a pass.
pub proof fn lemma_moveable_iff_points(b: Seq<Pattern>, c: Pattern)
    ensures
        moveable(b, c) <==> moveable_points(b, c).len() > 0,
{
    if moveable(b, c) {
        let (x, y) = choose|x: int, y: int| putable(b, c, x, y);
        lemma_points_complete(b, c, 64, x, y);
    }
    if moveable_points(b, c).len() > 0 {
        lemma_points_putable(b, c, 64, 0);
        let p = moveable_points(b, c)[0];
        assert(putable(b, c, p.0 as int, p.1 as int));
    }
}

} // verus!
