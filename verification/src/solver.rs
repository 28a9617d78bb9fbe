use crate::diagonal::{
    in_order, lemma_state_is_step_pair, lemma_step_pair_is_state, lemma_step_pairs_distinct,
};
use crate::grid::{lemma_predecessor_pair, shape_error, Grid, Point, PointPair, ShapeError};
use crate::score::{gain_of, Entry, PairScore};
use crate::table::ScoreTable;
use vstd::prelude::*;

verus! {

/// Why no answer was computed.
#[derive(Clone, Copy, Debug, PartialEq, Eq, Structural)]
pub enum SolveError {
    /// The matrix cannot serve as a grid.
    Shape(ShapeError),
    /// The best score of some pair of positions does not fit in `i32`.
    ScoreOverflow,
}

/// The entry with the highest score; among several, the last of them.
pub open spec fn best_of(entries: Seq<Entry>) -> Entry
    decreases entries.len(),
{
    if entries.len() == 0 {
        Entry::dead()
    } else if entries.len() == 1 {
        entries[0]
    } else {
        let earlier = best_of(entries.drop_last());
        if entries.last().score >= earlier.score {
            entries.last()
        } else {
            earlier
        }
    }
}

/// What the sweep settles for `pair` at step `i`. At step 0 both tokens
/// stand on the first cell. Later, a pair without predecessors is dead; any
/// other pair extends the best of what was recorded for its predecessors.
pub open spec fn settled(grid: &Grid, i: int, pair: PointPair) -> Entry
    decreases i, 0int,
{
    if i <= 0 {
        Entry::start()
    } else {
        let preds = pair.predecessor_pairs(grid);
        if preds.len() == 0 {
            Entry::dead()
        } else {
            best_of(recorded_all(grid, i - 1, preds)).extended(grid, pair.0, pair.1)
        }
    }
}

/// What the table of step `j` answers for each of `pairs`.
pub open spec fn recorded_all(grid: &Grid, j: int, pairs: Seq<PointPair>) -> Seq<Entry>
    decreases j, 2int,
{
    pairs.map_values(|q: PointPair| recorded(grid, j, q))
}

/// What the table of step `j` answers for `q`. The table files a pair with
/// the point first that the step lists first; asked for the pair the other
/// way round, it answers with the two tokens exchanged.
pub open spec fn recorded(grid: &Grid, j: int, q: PointPair) -> Entry
    decreases j, 1int,
{
    if in_order(grid, j, q.0, q.1) {
        settled(grid, j, q)
    } else {
        settled(grid, j, PointPair(q.1, q.0)).swapped()
    }
}

/// Both tokens on the last cell.
pub open spec fn end_pair(grid: &Grid) -> PointPair {
    PointPair(grid.last_cell(), grid.last_cell())
}

/// The pairs that the sweep settles at step `i`, in its order: the first
/// cell twice at step 0, the last cell twice at the last step, and the
/// step's pairs in between.
pub open spec fn states(grid: &Grid, i: int) -> Seq<PointPair> {
    if i == 0 {
        seq![PointPair(Point(0, 0), Point(0, 0))]
    } else if i == 2 * grid.size - 2 {
        seq![end_pair(grid)]
    } else if grid.is_step(i) {
        grid.step_pairs(i)
    } else {
        Seq::empty()
    }
}

/// Every score that the sweep settles fits in `i32`.
pub open spec fn scores_fit(grid: &Grid) -> bool {
    forall|i: int, x: int|
        0 < i <= 2 * grid.size - 2 && 0 <= x < states(grid, i).len() ==> i32::MIN <= settled(
            grid,
            i,
            #[trigger] states(grid, i)[x],
        ).score <= i32::MAX
}

/// The answer: what the sweep settles for the last cell.
pub open spec fn solution(grid: &Grid) -> Entry {
    settled(grid, 2 * grid.size - 2, end_pair(grid))
}

/// `answer` is what `solve` returns for `grid`: the answer where every score
/// fits in `i32`, nothing where one does not.
pub open spec fn is_answer(grid: &Grid, answer: Option<PairScore>) -> bool {
    match answer {
        Some(best) => scores_fit(grid) && best@ == solution(grid),
        None => !scores_fit(grid),
    }
}

/// `outcome` is what `cherry_pickup` returns for the rows `data`: the defect
/// of their shape, if they have one; else the answer for their grid, or the
/// report that a score does not fit in `i32`.
pub open spec fn is_outcome(data: Vec<Vec<i32>>, outcome: Result<PairScore, SolveError>) -> bool {
    match shape_error(data@) {
        Some(e) => outcome == Err::<PairScore, SolveError>(SolveError::Shape(e)),
        None => {
            let grid = Grid { data, size: data@.len() as usize };
            match outcome {
                Ok(best) => is_answer(&grid, Some(best)),
                Err(e) => e == SolveError::ScoreOverflow && is_answer(&grid, None),
            }
        },
    }
}

/// The table holds, for every pair that the sweep settles at step `j`, what
/// it settles for it.
pub open spec fn holds_step(table: Map<PointPair, PairScore>, grid: &Grid, j: int) -> bool {
    forall|x: int|
        0 <= x < states(grid, j).len() ==> {
            &&& table.contains_key(#[trigger] states(grid, j)[x])
            &&& table[states(grid, j)[x]]@ == settled(grid, j, states(grid, j)[x])
        }
}

/// Whether step `j` lists `a` no later than `b`.
fn listed_in_order(grid: &Grid, j: usize, a: Point, b: Point) -> (yes: bool)
    requires
        grid.wf(),
    ensures
        yes == in_order(grid, j as int, a, b),
{
    if j <= grid.size - 1 {
        a.0 <= b.0
    } else {
        a.0 >= b.0
    }
}

/// The table's entry for a predecessor pair `q` of step `j`, and whether it
/// is filed with the two tokens exchanged. The entry is there: the sweep has
/// settled every pair of step `j`.
fn look_up<'a>(table: &'a ScoreTable, grid: &Grid, j: usize, q: PointPair) -> (found: (
    &'a PairScore,
    bool,
))
    requires
        grid.wf(),
        j <= 2 * grid.size - 3,
        grid.free_at(j as int, q.0),
        grid.free_at(j as int, q.1),
        holds_step(table@, grid, j as int),
    ensures
        recorded(grid, j as int, q) == if found.1 {
            found.0@.swapped()
        } else {
            found.0@
        },
{
    let exchanged = !listed_in_order(grid, j, q.0, q.1);
    let filed = if exchanged {
        PointPair(q.1, q.0)
    } else {
        q
    };
    proof {
        if j == 0 {
            assert(states(grid, 0)[0] == filed);
        } else {
            let x: int = lemma_state_is_step_pair(grid, j as int, filed.0, filed.1);
            assert(states(grid, j as int)[x] == filed);
        }
    }
    (table.get(filed).unwrap(), exchanged)
}

/// What the sweep settles for `pair` at step `i`, from the table of the
/// step before. `None` where the score does not fit in `i32`.
fn settle(grid: &Grid, table: &ScoreTable, i: usize, pair: PointPair) -> (out: Option<PairScore>)
    requires
        grid.wf(),
        0 < i <= 2 * grid.size - 2,
        grid.in_bounds(pair.0),
        grid.in_bounds(pair.1),
        pair.0.0 + pair.0.1 == i,
        pair.1.0 + pair.1.1 == i,
        holds_step(table@, grid, i - 1),
    ensures
        match out {
            Some(entry) => entry@ == settled(grid, i as int, pair),
            None => !(i32::MIN <= settled(grid, i as int, pair).score <= i32::MAX),
        },
{
    let preds = pair.predecessors(grid);
    if preds.len() == 0 {
        return Some(PairScore::new(-1));
    }
    let ghost entries = recorded_all(grid, i - 1, preds@);
    let mut best: usize = 0;
    let mut best_score: i32 = {
        proof {
            lemma_predecessor_pair(grid, pair, 0);
        }
        look_up(table, grid, i - 1, preds[0]).0.score
    };
    proof {
        assert(entries.take(1).len() == 1);
        assert(entries.take(1)[0] == entries[0]);
    }
    let mut k: usize = 1;
    while k < preds.len()
        invariant
            grid.wf(),
            0 < i <= 2 * grid.size - 2,
            grid.in_bounds(pair.0),
            grid.in_bounds(pair.1),
            pair.0.0 + pair.0.1 == i,
            pair.1.0 + pair.1.1 == i,
            holds_step(table@, grid, i - 1),
            preds@ == pair.predecessor_pairs(grid),
            entries == recorded_all(grid, i - 1, preds@),
            0 < k <= preds@.len(),
            best < k,
            entries[best as int] == best_of(entries.take(k as int)),
            best_score == entries[best as int].score,
        decreases preds@.len() - k,
    {
        proof {
            lemma_predecessor_pair(grid, pair, k as int);
            assert(entries.take(k + 1).drop_last() == entries.take(k as int));
            assert(entries.take(k + 1).last() == entries[k as int]);
        }
        let score: i32 = look_up(table, grid, i - 1, preds[k]).0.score;
        if score >= best_score {
            best = k;
            best_score = score;
        }
        k += 1;
    }
    proof {
        lemma_predecessor_pair(grid, pair, best as int);
        assert(entries.take(k as int) == entries);
    }
    let found = look_up(table, grid, i - 1, preds[best]);
    let total: i64 = best_score as i64 + gain_of(grid, pair.0, pair.1);
    if total < i32::MIN as i64 || total > i32::MAX as i64 {
        return None;
    }
    if found.1 {
        Some(found.0.swapped().append(grid, pair.0, pair.1))
    } else {
        Some(found.0.append(grid, pair.0, pair.1))
    }
}

/// The best combined value that two tokens collect on their way from the
/// first to the last cell of `grid`, with the way of each. `None` where a
/// score on the way does not fit in `i32`.
///
/// The answer is what the sweep settles for the last cell. Where blocked
/// cells keep the tokens from the last cell, its paths have fewer than
/// `2 * size - 1` points; where the last cell has no neighbour to step from,
/// it is the dead entry, with score `-1` and no paths.
pub fn solve(grid: &Grid) -> (answer: Option<PairScore>)
    requires
        grid.wf(),
    ensures
        is_answer(grid, answer),
{
    let mut table = ScoreTable::new();
    table.insert(PointPair::zero(), PairScore::start());
    let steps = grid.steps_i();
    let mut i: usize = steps.start;
    while i < steps.end
        invariant
            grid.wf(),
            steps.end == 2 * grid.size - 2,
            0 < i,
            i <= steps.end || grid.size == 1,
            forall|j: int| 0 <= j < i ==> #[trigger] holds_step(table@, grid, j),
            forall|q: PointPair| #[trigger] table@.contains_key(q) ==> q.0.0 + q.0.1 < i,
            forall|j: int, x: int|
                0 < j < i && 0 <= x < states(grid, j).len() ==> i32::MIN <= settled(
                    grid,
                    j,
                    #[trigger] states(grid, j)[x],
                ).score <= i32::MAX,
        decreases steps.end - i,
    {
        let pairs = grid.pairs_iter_step_i(i).unwrap();
        let mut k: usize = 0;
        while k < pairs.len()
            invariant
                grid.wf(),
                grid.is_step(i as int),
                pairs@ == states(grid, i as int),
                k <= pairs@.len(),
                forall|j: int| 0 <= j < i ==> #[trigger] holds_step(table@, grid, j),
                forall|x: int|
                    0 <= x < k ==> {
                        &&& table@.contains_key(#[trigger] pairs@[x])
                        &&& table@[pairs@[x]]@ == settled(grid, i as int, pairs@[x])
                        &&& i32::MIN <= settled(grid, i as int, pairs@[x]).score <= i32::MAX
                    },
                forall|q: PointPair| #[trigger]
                    table@.contains_key(q) ==> q.0.0 + q.0.1 < i || exists|x: int|
                        0 <= x < k && pairs@[x] == q,
            decreases pairs@.len() - k,
        {
            let pair = pairs[k];
            proof {
                lemma_step_pair_is_state(grid, i as int, k as int);
                assert(holds_step(table@, grid, i - 1));
                if table@.contains_key(pair) {
                    let x: int = choose|x: int| 0 <= x < k && pairs@[x] == pair;
                    lemma_step_pairs_distinct(grid, i as int, x, k as int);
                }
            }
            match settle(grid, &table, i, pair) {
                Some(entry) => {
                    let ghost before = table@;
                    table.insert(pair, entry);
                    proof {
                        assert forall|j: int| 0 <= j < i implies #[trigger] holds_step(
                            table@,
                            grid,
                            j,
                        ) by {
                            assert(holds_step(before, grid, j));
                        }
                    }
                },
                None => {
                    proof {
                        assert(states(grid, i as int)[k as int] == pair);
                    }
                    return None;
                },
            }
            k += 1;
        }
        proof {
            assert forall|q: PointPair| #[trigger] table@.contains_key(q) implies q.0.0 + q.0.1 < i
                + 1 by {
                if !(q.0.0 + q.0.1 < i) {
                    let x: int = choose|x: int| 0 <= x < k && pairs@[x] == q;
                    lemma_step_pair_is_state(grid, i as int, x);
                }
            }
        }
        i += 1;
    }
    if grid.size == 1 {
        return Some(PairScore::start());
    }
    let end = PointPair::end(grid);
    proof {
        assert(holds_step(table@, grid, 2 * grid.size - 3));
        assert(states(grid, 2 * grid.size - 2)[0] == end);
    }
    let answer = settle(grid, &table, 2 * (grid.size - 1), end);
    proof {
        if answer is Some {
            assert forall|j: int, x: int|
                0 < j <= 2 * grid.size - 2 && 0 <= x < states(grid, j).len() implies i32::MIN
                <= settled(grid, j, #[trigger] states(grid, j)[x]).score <= i32::MAX by {
                if j == 2 * grid.size - 2 {
                    assert(states(grid, j)[x] == end);
                }
            }
        }
    }
    answer
}

/// Solves the grid with the rows `data`: the best combined value that two
/// tokens collect on their way from the first to the last cell, with the
/// way of each. Rows that form no grid are reported, and so is a score that
/// does not fit in `i32`.
pub fn cherry_pickup(data: Vec<Vec<i32>>) -> (outcome: Result<PairScore, SolveError>)
    ensures
        is_outcome(data, outcome),
{
    let grid = match Grid::new(data) {
        Ok(grid) => grid,
        Err(e) => {
            return Err(SolveError::Shape(e));
        },
    };
    match solve(&grid) {
        Some(best) => Ok(best),
        None => Err(SolveError::ScoreOverflow),
    }
}

} // verus!
