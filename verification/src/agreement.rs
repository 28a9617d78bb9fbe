use crate::diagonal::{in_order, lemma_step_pair_is_state};
use crate::grid::{lemma_predecessor_pair, shape_error, Grid, Point, PointPair};
use crate::score::PairScore;
use crate::solver::{
    end_pair, is_answer, is_outcome, recorded, recorded_all, scores_fit, settled, solution,
    states, SolveError,
};
use vstd::prelude::*;

verus! {

/// The two grids have the same side and the same value in every cell.
pub open spec fn same_cells(first: &Grid, second: &Grid) -> bool {
    &&& first.size == second.size
    &&& forall|r: int, c: int|
        0 <= r < first.size && 0 <= c < first.size ==> #[trigger] first.cell(r, c) == second.cell(
            r,
            c,
        )
}

/// The two matrices have the same rows.
pub open spec fn same_rows(first: Vec<Vec<i32>>, second: Vec<Vec<i32>>) -> bool {
    &&& first@.len() == second@.len()
    &&& forall|r: int| 0 <= r < first@.len() ==> (#[trigger] first@[r])@ == second@[r]@
}

proof fn lemma_same_value(first: &Grid, second: &Grid, p: Point)
    requires
        same_cells(first, second),
        first.in_bounds(p),
    ensures
        first.value(p) == second.value(p),
        first.unblocked(p) == second.unblocked(p),
{
    assert(first.cell(p.0 as int, p.1 as int) == second.cell(p.0 as int, p.1 as int));
}

proof fn lemma_same_points_among(first: &Grid, second: &Grid, i: int, k: int)
    requires
        first.wf(),
        second.wf(),
        same_cells(first, second),
        0 <= i <= 2 * first.size - 2,
        0 <= k <= first.span(i) + 1,
    ensures
        first.points_among(i, k) == second.points_among(i, k),
    decreases k,
{
    if k > 0 {
        lemma_same_points_among(first, second, i, k - 1);
        lemma_same_value(first, second, first.candidate(i, k - 1));
    }
}

/// Grids with the same cells settle the same pairs at every step.
pub proof fn lemma_same_states(first: &Grid, second: &Grid, i: int)
    requires
        first.wf(),
        second.wf(),
        same_cells(first, second),
    ensures
        states(first, i) == states(second, i),
{
    if first.is_step(i) {
        lemma_same_points_among(first, second, i, first.span(i) + 1);
    }
}

proof fn lemma_same_predecessors(first: &Grid, second: &Grid, pair: PointPair)
    requires
        first.wf(),
        second.wf(),
        same_cells(first, second),
        first.in_bounds(pair.0),
        first.in_bounds(pair.1),
    ensures
        pair.predecessor_pairs(first) == pair.predecessor_pairs(second),
{
    if pair.0.0 > 0 {
        lemma_same_value(first, second, pair.0.up());
    }
    if pair.0.1 > 0 {
        lemma_same_value(first, second, pair.0.left());
    }
    if pair.1.0 > 0 {
        lemma_same_value(first, second, pair.1.up());
    }
    if pair.1.1 > 0 {
        lemma_same_value(first, second, pair.1.left());
    }
    assert(pair.0.predecessors_in(first) == pair.0.predecessors_in(second));
    assert(pair.1.predecessors_in(first) == pair.1.predecessors_in(second));
}

/// Grids with the same cells settle the same for every pair of their
/// cells.
pub proof fn lemma_same_settled(first: &Grid, second: &Grid, i: int, pair: PointPair)
    requires
        first.wf(),
        second.wf(),
        same_cells(first, second),
        first.in_bounds(pair.0),
        first.in_bounds(pair.1),
    ensures
        settled(first, i, pair) == settled(second, i, pair),
    decreases i,
{
    if i > 0 {
        lemma_same_predecessors(first, second, pair);
        let preds = pair.predecessor_pairs(first);
        if preds.len() > 0 {
            let ours = recorded_all(first, i - 1, preds);
            let theirs = recorded_all(second, i - 1, preds);
            assert forall|k: int| 0 <= k < preds.len() implies ours[k] == theirs[k] by {
                let q = preds[k];
                lemma_predecessor_pair(first, pair, k);
                assert(in_order(first, i - 1, q.0, q.1) == in_order(second, i - 1, q.0, q.1));
                lemma_same_settled(first, second, i - 1, q);
                lemma_same_settled(first, second, i - 1, PointPair(q.1, q.0));
                assert(recorded(first, i - 1, q) == recorded(second, i - 1, q));
            }
            assert(ours =~= theirs);
            lemma_same_value(first, second, pair.0);
            lemma_same_value(first, second, pair.1);
        }
    }
}

proof fn lemma_state_in_bounds(grid: &Grid, i: int, x: int)
    requires
        grid.wf(),
        0 <= i <= 2 * grid.size - 2,
        0 <= x < states(grid, i).len(),
    ensures
        grid.in_bounds(states(grid, i)[x].0),
        grid.in_bounds(states(grid, i)[x].1),
{
    if grid.is_step(i) {
        lemma_step_pair_is_state(grid, i, x);
    }
}

proof fn lemma_scores_fit_carries_over(first: &Grid, second: &Grid)
    requires
        first.wf(),
        second.wf(),
        same_cells(first, second),
        scores_fit(first),
    ensures
        scores_fit(second),
{
    assert forall|i: int, x: int|
        0 < i <= 2 * second.size - 2 && 0 <= x < states(second, i).len() implies i32::MIN
        <= settled(second, i, #[trigger] states(second, i)[x]).score <= i32::MAX by {
        lemma_same_states(first, second, i);
        lemma_state_in_bounds(first, i, x);
        lemma_same_settled(first, second, i, states(first, i)[x]);
    }
}

/// Grids with the same cells have the same answer, and the scores of the
/// one fit in `i32` exactly when those of the other do.
pub proof fn lemma_same_cells_same_solution(first: &Grid, second: &Grid)
    requires
        first.wf(),
        second.wf(),
        same_cells(first, second),
    ensures
        solution(first) == solution(second),
        scores_fit(first) == scores_fit(second),
{
    lemma_same_settled(first, second, 2 * first.size - 2, end_pair(first));
    if scores_fit(first) {
        lemma_scores_fit_carries_over(first, second);
    }
    if scores_fit(second) {
        assert(same_cells(second, first)) by {
            assert forall|r: int, c: int|
                0 <= r < second.size && 0 <= c < second.size implies #[trigger] second.cell(r, c)
                == first.cell(r, c) by {
                assert(first.cell(r, c) == second.cell(r, c));
            }
        }
        lemma_scores_fit_carries_over(second, first);
    }
}

/// Solving is a function of the cells: whatever `solve` returns for two
/// grids with the same cells, it is an answer both times or none both
/// times, and two answers have the same score and the same paths.
pub proof fn lemma_solve_is_deterministic(
    first: &Grid,
    second: &Grid,
    a: Option<PairScore>,
    b: Option<PairScore>,
)
    requires
        first.wf(),
        second.wf(),
        same_cells(first, second),
        is_answer(first, a),
        is_answer(second, b),
    ensures
        match (a, b) {
            (Some(x), Some(y)) => x@ == y@,
            (None, None) => true,
            _ => false,
        },
{
    lemma_same_cells_same_solution(first, second);
}

/// Whatever `cherry_pickup` returns for two matrices with the same rows, it
/// is the same error both times, or two answers with the same score and the
/// same paths.
pub proof fn lemma_cherry_pickup_is_deterministic(
    first: Vec<Vec<i32>>,
    second: Vec<Vec<i32>>,
    a: Result<PairScore, SolveError>,
    b: Result<PairScore, SolveError>,
)
    requires
        same_rows(first, second),
        is_outcome(first, a),
        is_outcome(second, b),
    ensures
        match (a, b) {
            (Ok(x), Ok(y)) => x@ == y@,
            (Err(e), Err(f)) => e == f,
            _ => false,
        },
{
    assert(shape_error(first@) == shape_error(second@)) by {
        if first@.len() > 0 {
            if exists|r: int| 0 <= r < first@.len() && (#[trigger] first@[r])@.len() != first@[0]@.len() {
                let r: int = choose|r: int|
                    0 <= r < first@.len() && (#[trigger] first@[r])@.len() != first@[0]@.len();
                assert(second@[r]@.len() != second@[0]@.len());
            }
            if exists|r: int|
                0 <= r < second@.len() && (#[trigger] second@[r])@.len() != second@[0]@.len() {
                let r: int = choose|r: int|
                    0 <= r < second@.len() && (#[trigger] second@[r])@.len() != second@[0]@.len();
                assert(first@[r]@.len() != first@[0]@.len());
            }
        }
    }
    if shape_error(first@) is None {
        let g = Grid { data: first, size: first@.len() as usize };
        let h = Grid { data: second, size: second@.len() as usize };
        assert(g.wf());
        assert(h.wf());
        assert(same_cells(&g, &h)) by {
            assert forall|r: int, c: int| 0 <= r < g.size && 0 <= c < g.size implies #[trigger] g.cell(
                r,
                c,
            ) == h.cell(r, c) by {
                assert(first@[r]@ == second@[r]@);
            }
        }
        lemma_same_cells_same_solution(&g, &h);
    }
}

} // verus!
