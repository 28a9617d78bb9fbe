use crate::grid::{Grid, Point, PointPair};
use crate::pair_iter::{all_pairs, lemma_all_pairs_cover, lemma_all_pairs_index, pair_index};
use vstd::prelude::*;

verus! {

/// The cells on which a token can stand after `step` moves.
pub open spec fn diagonal_cells(grid: &Grid, step: int) -> Set<Point> {
    Set::new(|p: Point| grid.free_at(step, p))
}

/// Step `i` lists `a` no later than `b`.
pub open spec fn in_order(grid: &Grid, i: int, a: Point, b: Point) -> bool {
    grid.slot(i, a) <= grid.slot(i, b)
}

/// `points` holds the cells of step `i` that are not blocked and whose slot
/// is below `k`: each of them, nothing else, in the order of their slots.
pub open spec fn lists_diagonal(grid: &Grid, i: int, k: int, points: Seq<Point>) -> bool {
    &&& forall|x: int|
        0 <= x < points.len() ==> grid.free_at(i, #[trigger] points[x]) && 0 <= grid.slot(
            i,
            points[x],
        ) < k
    &&& forall|x: int, y: int|
        0 <= x < y < points.len() ==> grid.slot(i, #[trigger] points[x]) < grid.slot(
            i,
            #[trigger] points[y],
        )
    &&& forall|p: Point|
        grid.free_at(i, p) && grid.slot(i, p) < k ==> #[trigger] points.contains(p)
}

proof fn lemma_points_among(grid: &Grid, i: int, k: int)
    requires
        grid.wf(),
        0 <= i <= 2 * grid.size - 2,
        0 <= k <= grid.span(i) + 1,
    ensures
        lists_diagonal(grid, i, k, grid.points_among(i, k)),
    decreases k,
{
    if k > 0 {
        lemma_points_among(grid, i, k - 1);
        let before = grid.points_among(i, k - 1);
        let c = grid.candidate(i, k - 1);
        let now = grid.points_among(i, k);
        assert(grid.in_bounds(c) && c.0 + c.1 == i && grid.slot(i, c) == k - 1);
        assert forall|p: Point| grid.free_at(i, p) && grid.slot(i, p) < k implies #[trigger]
            now.contains(p) by {
            if grid.slot(i, p) < k - 1 {
                assert(before.contains(p));
                let x: int = choose|x: int| 0 <= x < before.len() && before[x] == p;
                assert(now[x] == p);
            } else {
                assert(p == c);
                assert(now[now.len() - 1] == p);
            }
        }
    }
}

/// The points of a step are the cells of its anti-diagonal that are not
/// blocked, each of them once: there are as many points as such cells. They
/// stand in the order of their slots.
pub proof fn lemma_step_points(grid: &Grid, i: int)
    requires
        grid.wf(),
        0 <= i <= 2 * grid.size - 2,
    ensures
        forall|p: Point| #[trigger] grid.step_points(i).contains(p) <==> grid.free_at(i, p),
        grid.step_points(i).no_duplicates(),
        grid.step_points(i).to_set() == diagonal_cells(grid, i),
        grid.step_points(i).len() == diagonal_cells(grid, i).len(),
        lists_diagonal(grid, i, grid.span(i) + 1, grid.step_points(i)),
{
    let points = grid.step_points(i);
    lemma_points_among(grid, i, grid.span(i) + 1);
    assert forall|p: Point| #[trigger] points.contains(p) <==> grid.free_at(i, p) by {
        if points.contains(p) {
            let x: int = choose|x: int| 0 <= x < points.len() && points[x] == p;
            assert(grid.free_at(i, points[x]));
        }
        if grid.free_at(i, p) {
            assert(grid.slot(i, p) < grid.span(i) + 1);
        }
    }
    assert forall|x: int, y: int|
        0 <= x < points.len() && 0 <= y < points.len() && x != y implies points[x] != points[y] by {
        if x < y {
            assert(grid.slot(i, points[x]) < grid.slot(i, points[y]));
        } else {
            assert(grid.slot(i, points[y]) < grid.slot(i, points[x]));
        }
    }
    assert(points.to_set() =~= diagonal_cells(grid, i));
    points.unique_seq_to_set();
}

/// The pairs of a step hold two cells of its anti-diagonal that are not
/// blocked, the one that the step lists earlier first.
pub proof fn lemma_step_pair_is_state(grid: &Grid, i: int, x: int)
    requires
        grid.wf(),
        0 <= i <= 2 * grid.size - 2,
        0 <= x < grid.step_pairs(i).len(),
    ensures
        grid.free_at(i, grid.step_pairs(i)[x].0),
        grid.free_at(i, grid.step_pairs(i)[x].1),
        in_order(grid, i, grid.step_pairs(i)[x].0, grid.step_pairs(i)[x].1),
{
    let points = grid.step_points(i);
    lemma_step_points(grid, i);
    let ij = lemma_all_pairs_cover(points, x);
    assert(grid.free_at(i, points[ij.0]));
    assert(grid.free_at(i, points[ij.1]));
    if ij.0 < ij.1 {
        assert(grid.slot(i, points[ij.0]) < grid.slot(i, points[ij.1]));
    }
}

/// Two cells of a step's anti-diagonal that are not blocked form one of the
/// step's pairs, the one that the step lists earlier first. The lemma
/// returns the pair's position.
pub proof fn lemma_state_is_step_pair(grid: &Grid, i: int, a: Point, b: Point) -> (x: int)
    requires
        grid.wf(),
        0 <= i <= 2 * grid.size - 2,
        grid.free_at(i, a),
        grid.free_at(i, b),
        in_order(grid, i, a, b),
    ensures
        0 <= x < grid.step_pairs(i).len(),
        grid.step_pairs(i)[x] == PointPair(a, b),
{
    let points = grid.step_points(i);
    lemma_step_points(grid, i);
    assert(points.contains(a));
    assert(points.contains(b));
    let ia: int = choose|x: int| 0 <= x < points.len() && points[x] == a;
    let ib: int = choose|x: int| 0 <= x < points.len() && points[x] == b;
    if ib < ia {
        assert(grid.slot(i, points[ib]) < grid.slot(i, points[ia]));
    }
    lemma_all_pairs_index(points, ia, ib);
    pair_index(points.len() as int, ia, ib)
}

/// No pair occurs twice among the pairs of a step.
pub proof fn lemma_step_pairs_distinct(grid: &Grid, i: int, x: int, y: int)
    requires
        grid.wf(),
        0 <= i <= 2 * grid.size - 2,
        0 <= x < grid.step_pairs(i).len(),
        0 <= y < grid.step_pairs(i).len(),
        x != y,
    ensures
        grid.step_pairs(i)[x] != grid.step_pairs(i)[y],
{
    let points = grid.step_points(i);
    lemma_step_points(grid, i);
    let p = lemma_all_pairs_cover(points, x);
    let q = lemma_all_pairs_cover(points, y);
    if grid.step_pairs(i)[x] == grid.step_pairs(i)[y] {
        assert(points[p.0] == points[q.0]);
        assert(points[p.1] == points[q.1]);
        assert(p.0 == q.0);
        assert(p.1 == q.1);
    }
}

} // verus!
