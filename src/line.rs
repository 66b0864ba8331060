use vstd::prelude::*;
use crate::pattern::{opp, Pattern};

verus! {

/// `line` (cells in order, nearest to the placement first) brackets a run of
/// `k` opposing stones for `c`: cells `0..k` hold the opponent and cell `k`
/// holds `c`, with `k >= 1`.
pub open spec fn bracket_at(line: Seq<Pattern>, c: Pattern, k: int) -> bool {
    &&& c != Pattern::Empty
    &&& 0 < k < line.len()
    &&& line[k] == c
    &&& forall|i: int| 0 <= i < k ==> #[trigger] line[i] == opp(c)
}

/// Placing `c` in front of `line` captures along it.
pub open spec fn changeable(line: Seq<Pattern>, c: Pattern) -> bool {
    exists|k: int| bracket_at(line, c, k)
}

/// How many stones of `line` placing `c` in front of it flips: the length of
/// the bracketed run, or 0 when there is no bracket.
pub open spec fn flip_count(line: Seq<Pattern>, c: Pattern) -> int {
    if changeable(line, c) {
        choose|k: int| bracket_at(line, c, k)
    } else {
        0
    }
}

/// `line` after placing `c` in front of it: the bracketed run turns to `c`,
/// everything else is unchanged.
pub open spec fn changed(line: Seq<Pattern>, c: Pattern) -> Seq<Pattern> {
    Seq::new(line.len(), |i: int| if i < flip_count(line, c) { c } else { line[i] })
}

/// A line has at most one bracket.
pub proof fn lemma_bracket_unique(line: Seq<Pattern>, c: Pattern, k1: int, k2: int)
    requires
        bracket_at(line, c, k1),
        bracket_at(line, c, k2),
    ensures
        k1 == k2,
{
    if k1 < k2 {
        assert(line[k1] == opp(c));
    } else if k2 < k1 {
        assert(line[k2] == opp(c));
    }
}

/// The bracketed run, when there is one, is found at its length.
pub proof fn lemma_flip_count_at(line: Seq<Pattern>, c: Pattern, k: int)
    requires
        bracket_at(line, c, k),
    ensures
        changeable(line, c),
        flip_count(line, c) == k,
{
    let j = choose|j: int| bracket_at(line, c, j);
    lemma_bracket_unique(line, c, j, k);
}

/// The flip count lies within the line, and is positive exactly when the line
/// is changeable.
pub proof fn lemma_flip_count_range(line: Seq<Pattern>, c: Pattern)
    ensures
        0 <= flip_count(line, c) < line.len() || (flip_count(line, c) == 0 && line.len() == 0),
        changeable(line, c) <==> flip_count(line, c) > 0,
        forall|i: int| 0 <= i < flip_count(line, c) ==> line[i] == opp(c),
{
    if changeable(line, c) {
        let k = choose|k: int| bracket_at(line, c, k);
        lemma_flip_count_at(line, c, k);
    }
}

/// Whether placing `with` in front of `line` captures along it.
pub fn is_changeable(line: &Vec<Pattern>, with: Pattern) -> (r: bool)
    ensures
        r == changeable(line@, with),
{
    if with == Pattern::Empty {
        return false;
    }
    let mut has_opponent = false;
    let mut i: usize = 0;
    while i < line.len()
        invariant
            0 <= i <= line.len(),
            with != Pattern::Empty,
            has_opponent == (i > 0),
            forall|j: int| 0 <= j < i ==> line@[j] == opp(with),
        decreases line.len() - i,
    {
        let point = line[i];
        if point == Pattern::Empty {
            assert forall|k: int| !bracket_at(line@, with, k) by {
                if bracket_at(line@, with, k) && k > i {
                    assert(line@[i as int] == opp(with));
                }
            }
            return false;
        }
        if point == with {
            if has_opponent {
                assert(bracket_at(line@, with, i as int));
            } else {
                assert forall|k: int| !bracket_at(line@, with, k) by {
                    if bracket_at(line@, with, k) {
                        assert(line@[0] == opp(with));
                    }
                }
            }
            return has_opponent;
        }
        has_opponent = true;
        i += 1;
    }
    assert forall|k: int| !bracket_at(line@, with, k) by {
        if bracket_at(line@, with, k) {
            assert(line@[k] == opp(with));
        }
    }
    false
}

/// How many stones placing `with` in front of `line` would flip.
pub fn count_flips(line: &Vec<Pattern>, with: Pattern) -> (r: usize)
    ensures
        r == flip_count(line@, with),
{
    if with == Pattern::Empty {
        return 0;
    }
    let mut count: usize = 0;
    while count < line.len()
        invariant
            0 <= count <= line.len(),
            with != Pattern::Empty,
            forall|j: int| 0 <= j < count ==> line@[j] == opp(with),
        decreases line.len() - count,
    {
        let point = line[count];
        if point == Pattern::Empty {
            assert forall|k: int| !bracket_at(line@, with, k) by {
                if bracket_at(line@, with, k) && k > count {
                    assert(line@[count as int] == opp(with));
                }
            }
            return 0;
        }
        if point == with {
            if count > 0 {
                proof {
                    lemma_flip_count_at(line@, with, count as int);
                }
            } else {
                assert forall|k: int| !bracket_at(line@, with, k) by {
                    if bracket_at(line@, with, k) {
                        assert(line@[0] == opp(with));
                    }
                }
            }
            return count;
        }
        count += 1;
    }
    assert forall|k: int| !bracket_at(line@, with, k) by {
        if bracket_at(line@, with, k) {
            assert(line@[k] == opp(with));
        }
    }
    0
}

/// `line` after placing `with` in front of it: the bracketed run of opposing
/// stones is flipped; a line without a bracket comes back unchanged.
pub fn change(line: Vec<Pattern>, with: Pattern) -> (r: Vec<Pattern>)
    ensures
        r@ == changed(line@, with),
{
    if with == Pattern::Empty {
        assert(!changeable(line@, with));
        assert(line@ =~= changed(line@, with));
        return line;
    }
    let mut result: Vec<Pattern> = Vec::new();
    let mut i: usize = 0;
    while i < line.len()
        invariant
            0 <= i <= line.len(),
            with != Pattern::Empty,
            result.len() == i,
            forall|j: int| 0 <= j < i ==> line@[j] == opp(with) && result@[j] == with,
        decreases line.len() - i,
    {
        let point = line[i];
        if point == Pattern::Empty {
            assert forall|k: int| !bracket_at(line@, with, k) by {
                if bracket_at(line@, with, k) && k > i {
                    assert(line@[i as int] == opp(with));
                }
            }
            assert(line@ =~= changed(line@, with));
            return line;
        }
        if point == with {
            let mut j: usize = i;
            while j < line.len()
                invariant
                    i <= j <= line.len(),
                    result.len() == j,
                    forall|t: int| 0 <= t < i ==> result@[t] == with,
                    forall|t: int| i <= t < j ==> result@[t] == line@[t],
                decreases line.len() - j,
            {
                result.push(line[j]);
                j += 1;
            }
            if i > 0 {
                proof {
                    lemma_flip_count_at(line@, with, i as int);
                }
            } else {
                assert forall|k: int| !bracket_at(line@, with, k) by {
                    if bracket_at(line@, with, k) {
                        assert(line@[0] == opp(with));
                    }
                }
            }
            assert(result@ =~= changed(line@, with));
            return result;
        }
        result.push(point.fliped());
        i += 1;
    }
    assert forall|k: int| !bracket_at(line@, with, k) by {
        if bracket_at(line@, with, k) {
            assert(line@[k] == opp(with));
        }
    }
    assert(line@ =~= changed(line@, with));
    line
}

} // verus!
