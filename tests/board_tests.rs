use osero::search::{best_candidates, position_score};
use osero::display::index_to_str;
use osero::{Osero, Pattern};

fn empty_board() -> Osero {
    Osero([Pattern::Empty; 64])
}

fn with_stones(stones: &[(Pattern, usize, usize)]) -> Osero {
    let mut b = empty_board();
    for &(p, x, y) in stones {
        assert!(b.set(p, (x, y)));
    }
    b
}

#[test]
fn opening_layout() {
    let b = Osero::default();
    assert_eq!(b.get((3, 3)), Some(Pattern::Black));
    assert_eq!(b.get((4, 4)), Some(Pattern::Black));
    assert_eq!(b.get((4, 3)), Some(Pattern::White));
    assert_eq!(b.get((3, 4)), Some(Pattern::White));
    assert_eq!(b.get((0, 0)), Some(Pattern::Empty));
    assert_eq!(b.many(), (2, 2, 60));
}

#[test]
fn out_of_range_access_is_harmless() {
    let mut b = Osero::default();
    assert_eq!(b.get((8, 0)), None);
    assert_eq!(b.get((0, 8)), None);
    assert!(!b.set(Pattern::Black, (8, 8)));
    assert_eq!(b.many(), (2, 2, 60));
    assert!(!b.is_putabele(Pattern::Black, (8, 2)));
    assert_eq!(b.count_all_flips(Pattern::Black, (9, 9)), 0);
}

#[test]
fn opening_legality() {
    let b = Osero::default();
    let moves = b.get_moveable_points(Pattern::Black);
    assert_eq!(moves, vec![(4, 2), (5, 3), (2, 4), (3, 5)]);
    for &m in &moves {
        assert_eq!(b.count_all_flips(Pattern::Black, m), 1);
        assert!(b.is_putabele(Pattern::Black, m));
    }
    assert_eq!(
        b.get_moveable_points(Pattern::White),
        vec![(3, 2), (2, 3), (5, 4), (4, 5)]
    );
    assert!(b.get_moveable_points(Pattern::Empty).is_empty());
}

#[test]
fn opening_capture() {
    let mut b = Osero::default();
    b.put(Pattern::Black, (4, 2));
    assert_eq!(b.many(), (4, 1, 59));
    assert_eq!(b.get((4, 3)), Some(Pattern::Black));
    assert_eq!(b.get((4, 2)), Some(Pattern::Black));
}

#[test]
fn capture_changes_only_bracketed_cells() {
    let before = Osero::default();
    let mut after = before;
    after.put(Pattern::Black, (4, 2));
    let mut changed = vec![];
    for y in 0..8 {
        for x in 0..8 {
            if before.get((x, y)) != after.get((x, y)) {
                changed.push((x, y));
            }
        }
    }
    assert_eq!(changed, vec![(4, 2), (4, 3)]);
}

#[test]
fn illegal_put_is_a_no_op() {
    let mut b = Osero::default();
    let tally = b.many();
    b.put(Pattern::Black, (0, 0));
    assert_eq!(b.many(), tally);
    b.put(Pattern::Black, (3, 3));
    assert_eq!(b.many(), tally);
    b.put(Pattern::Empty, (4, 2));
    assert_eq!(b.many(), tally);
    b.put(Pattern::White, (4, 2));
    assert_eq!(b.many(), tally);
    b.put(Pattern::Black, (8, 2));
    assert_eq!(b.many(), tally);
    assert_eq!(b.express(), Osero::default().express());
}

#[test]
fn gaps_break_the_bracket() {
    let b = with_stones(&[(Pattern::Black, 0, 0), (Pattern::White, 2, 0)]);
    assert!(!b.is_putabele(Pattern::Black, (3, 0)));
    assert_eq!(b.count_all_flips(Pattern::Black, (3, 0)), 0);
    let b = with_stones(&[(Pattern::White, 1, 0), (Pattern::White, 2, 0)]);
    assert!(!b.is_putabele(Pattern::Black, (0, 0)));
}

#[test]
fn captures_in_several_directions() {
    let mut b = with_stones(&[
        (Pattern::Black, 0, 0),
        (Pattern::White, 1, 1),
        (Pattern::White, 2, 2),
        (Pattern::Black, 3, 0),
        (Pattern::White, 3, 1),
        (Pattern::White, 3, 2),
        (Pattern::White, 4, 3),
        (Pattern::White, 5, 3),
    ]);
    assert_eq!(b.count_all_flips(Pattern::Black, (3, 3)), 4);
    assert!(b.is_putabele(Pattern::Black, (3, 3)));
    b.put(Pattern::Black, (3, 3));
    for &(x, y) in &[(1, 1), (2, 2), (3, 1), (3, 2), (3, 3)] {
        assert_eq!(b.get((x, y)), Some(Pattern::Black));
    }
    // the run to the right is not bracketed
    assert_eq!(b.get((4, 3)), Some(Pattern::White));
    assert_eq!(b.get((5, 3)), Some(Pattern::White));
    assert_eq!(b.many(), (7, 2, 55));
}

#[test]
fn tally_always_covers_the_board() {
    let mut b = Osero::default();
    let (x, y, z) = b.many();
    assert_eq!(x + y + z, 64);
    let mut turn = Pattern::Black;
    for _ in 0..20 {
        let moves = b.get_moveable_points(turn);
        if let Some(&m) = moves.first() {
            b.put(turn, m);
        }
        let (x, y, z) = b.many();
        assert_eq!(x + y + z, 64);
        turn = turn.fliped();
    }
}

#[test]
fn forced_pass() {
    let b = with_stones(&[(Pattern::Black, 0, 0), (Pattern::White, 1, 0)]);
    assert!(b.get_moveable_points(Pattern::White).is_empty());
    assert!(!b.is_moveable_with(Pattern::White));
    assert!(b.is_moveable_with(Pattern::Black));
    assert!(!b.is_finished());
    for level in 1..4 {
        assert_eq!(b.best_move(Pattern::White, level), None);
    }
}

#[test]
fn single_move_is_always_chosen() {
    let b = with_stones(&[(Pattern::Black, 0, 0), (Pattern::White, 1, 0)]);
    assert_eq!(b.get_moveable_points(Pattern::Black), vec![(2, 0)]);
    for _ in 0..10 {
        assert_eq!(b.best_move(Pattern::Black, 1), Some((2, 0)));
        assert_eq!(b.level1(Pattern::Black), Some((2, 0)));
    }
    assert_eq!(b.best_move(Pattern::Black, 2), Some((2, 0)));
    assert_eq!(b.best_move(Pattern::Black, 3), Some((2, 0)));
}

#[test]
fn greedy_prefers_more_flips() {
    // (0,0) flips two stones, (5,0) flips one
    let b = with_stones(&[
        (Pattern::White, 1, 0),
        (Pattern::White, 2, 0),
        (Pattern::Black, 3, 0),
        (Pattern::White, 4, 0),
    ]);
    assert_eq!(b.count_all_flips(Pattern::Black, (0, 0)), 2);
    assert_eq!(b.count_all_flips(Pattern::Black, (5, 0)), 1);
    for _ in 0..10 {
        assert_eq!(b.best_move(Pattern::Black, 1), Some((0, 0)));
    }
}

#[test]
fn search_prefers_the_corner() {
    // both moves flip one stone; the corner weighs 100, (5,0) weighs 10
    let b = with_stones(&[
        (Pattern::White, 1, 0),
        (Pattern::Black, 2, 0),
        (Pattern::Black, 3, 0),
        (Pattern::White, 4, 0),
    ]);
    assert_eq!(b.get_moveable_points(Pattern::Black), vec![(0, 0), (5, 0)]);
    for _ in 0..5 {
        assert_eq!(b.best_move(Pattern::Black, 2), Some((0, 0)));
    }
}

#[test]
fn opening_search_returns_a_legal_move() {
    let b = Osero::default();
    let legal = b.get_moveable_points(Pattern::Black);
    for level in 1..4 {
        let m = b.best_move(Pattern::Black, level).unwrap();
        assert!(legal.contains(&m));
    }
}

#[test]
fn terminal_scoring() {
    let mut cells = [Pattern::White; 64];
    for c in cells.iter_mut().take(40) {
        *c = Pattern::Black;
    }
    let b = Osero(cells);
    assert_eq!(b.many(), (40, 24, 0));
    assert_eq!(b.which_win(), Some(Pattern::Black));
    assert!(b.is_finished());

    let mut cells = [Pattern::White; 64];
    for c in cells.iter_mut().take(32) {
        *c = Pattern::Black;
    }
    let b = Osero(cells);
    assert_eq!(b.which_win(), None);
    assert!(b.is_finished());

    let mut cells = [Pattern::White; 64];
    cells[0] = Pattern::Black;
    assert_eq!(Osero(cells).which_win(), Some(Pattern::White));
}

#[test]
fn finished_when_both_blocked() {
    let b = with_stones(&[(Pattern::Black, 0, 0), (Pattern::Black, 7, 7)]);
    assert!(!b.is_moveable_with(Pattern::Black));
    assert!(!b.is_moveable_with(Pattern::White));
    assert!(b.is_finished());
    assert!(!Osero::default().is_finished());
    assert!(empty_board().is_finished());
}

#[test]
fn express_renders_the_board() {
    let text = Osero::default().express();
    let expected = "  0 1 2 3 4 5 6 7\n\
                    0 . . . . . . . . \n\
                    1 . . . . . . . . \n\
                    2 . . . . . . . . \n\
                    3 . . . X O . . . \n\
                    4 . . . O X . . . \n\
                    5 . . . . . . . . \n\
                    6 . . . . . . . . \n\
                    7 . . . . . . . . \n";
    assert_eq!(text, expected);
}

#[test]
fn pattern_helpers() {
    assert_eq!(Pattern::Black.fliped(), Pattern::White);
    assert_eq!(Pattern::White.fliped(), Pattern::Black);
    assert_eq!(Pattern::Empty.fliped(), Pattern::Empty);
    assert_eq!(Pattern::default(), Pattern::Empty);
    assert_eq!(Pattern::Black.name(), "Black");
    assert_eq!(Pattern::White.name(), "White");
    assert_eq!(Pattern::Empty.name(), "Empty");
}

#[test]
fn wide_digits() {
    assert_eq!(index_to_str(0), "０");
    assert_eq!(index_to_str(7), "７");
    assert_eq!(index_to_str(8), "");
    assert_eq!(index_to_str(-1), "");
}

#[test]
fn best_candidates_keeps_all_ties_in_order() {
    let points = vec![(0, 0), (1, 0), (2, 0), (3, 0)];
    assert_eq!(best_candidates(&points, &vec![5, 7, 3, 7]), vec![(1, 0), (3, 0)]);
    assert_eq!(best_candidates(&points, &vec![9, 7, 3, 7]), vec![(0, 0)]);
    assert_eq!(
        best_candidates(&points, &vec![i32::MIN, i32::MIN, i32::MIN, i32::MIN]),
        points
    );
    assert!(best_candidates(&vec![], &vec![]).is_empty());
}

#[test]
fn position_table() {
    let table: [i32; 64] = [
        100, -20, 10, 5, 5, 10, -20, 100, -20, -50, -2, -2, -2, -2, -50, -20, 10, -2, 5, 1, 1, 5,
        -2, 10, 5, -2, 1, 0, 0, 1, -2, 5, 5, -2, 1, 0, 0, 1, -2, 5, 10, -2, 5, 1, 1, 5, -2, 10,
        -20, -50, -2, -2, -2, -2, -50, -20, 100, -20, 10, 5, 5, 10, -20, 100,
    ];
    for y in 0..8 {
        for x in 0..8 {
            assert_eq!(position_score((x, y)), table[y * 8 + x], "cell ({}, {})", x, y);
        }
    }
}

#[test]
fn node_values() {
    let b = with_stones(&[
        (Pattern::White, 1, 0),
        (Pattern::Black, 2, 0),
        (Pattern::Black, 3, 0),
        (Pattern::White, 4, 0),
    ]);
    // corner, one flip, White cannot reply
    assert_eq!(b.get_total_score(Pattern::Black, (0, 0), 0), 110);
    assert_eq!(b.get_total_score(Pattern::Black, (0, 0), 1), 110);
    // edge cell weighing 10, one flip; White's best reply at (6,0) scores -20 + 4 * 10
    assert_eq!(b.get_total_score(Pattern::Black, (5, 0), 0), 20);
    assert_eq!(b.get_total_score(Pattern::Black, (5, 0), 1), 0);
    // illegal placements count 0
    assert_eq!(b.get_total_score(Pattern::Black, (7, 7), 2), 0);
    assert_eq!(b.get_total_score(Pattern::Black, (2, 0), 2), 0);
}
