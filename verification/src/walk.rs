use crate::diagonal::in_order;
use crate::grid::{
    lemma_is_predecessor_pair, lemma_predecessor_pair, steps_onto, Grid, Point, PointPair,
};
use crate::score::{gain, Entry};
use crate::solver::{best_of, end_pair, recorded, recorded_all, settled, solution};
use vstd::prelude::*;

verus! {

/// The `k`-th step of `path` leaves a cell that is not blocked, for the
/// cell below it or the one to its right.
pub open spec fn is_move(grid: &Grid, path: Seq<Point>, k: int) -> bool {
    steps_onto(path[k], path[k + 1]) && grid.unblocked(path[k])
}

/// `path` is the way of a token: it begins on the first cell, stays in the
/// grid, and goes one cell down or one cell to the right with each step.
/// Every cell that it leaves is not blocked; the cell on which it ends need
/// not be.
pub open spec fn is_walk(grid: &Grid, path: Seq<Point>) -> bool {
    &&& path.len() > 0
    &&& path[0] == Point(0, 0)
    &&& forall|k: int| 0 <= k < path.len() ==> grid.in_bounds(#[trigger] path[k])
    &&& forall|k: int| 0 <= k < path.len() - 1 ==> #[trigger] is_move(grid, path, k)
}

/// What two tokens collect on their ways: at every step after the start
/// the values of the two cells they step onto, or that of the one cell
/// where both step onto it.
pub open spec fn collected(grid: &Grid, path1: Seq<Point>, path2: Seq<Point>) -> int
    decreases path1.len(),
{
    if path1.len() <= 1 {
        0
    } else {
        collected(grid, path1.drop_last(), path2.drop_last()) + gain(
            grid,
            path1.last(),
            path2.last(),
        )
    }
}

/// Both paths of `entry` are ways of a token, the first to `pair.0` and the
/// second to `pair.1`, and the score is what the two collect on them.
pub open spec fn leads_to(grid: &Grid, entry: Entry, pair: PointPair) -> bool {
    &&& is_walk(grid, entry.path1)
    &&& is_walk(grid, entry.path2)
    &&& entry.path1.last() == pair.0
    &&& entry.path2.last() == pair.1
    &&& entry.score == collected(grid, entry.path1, entry.path2)
}

/// The best of some entries is one of them. The lemma returns its place.
pub proof fn lemma_best_of_is_member(entries: Seq<Entry>) -> (m: int)
    requires
        entries.len() > 0,
    ensures
        0 <= m < entries.len(),
        best_of(entries) == entries[m],
        forall|k: int| 0 <= k < entries.len() ==> entries[k].score <= entries[m].score,
    decreases entries.len(),
{
    if entries.len() == 1 {
        0
    } else {
        let earlier: int = lemma_best_of_is_member(entries.drop_last());
        let m: int = if entries.last().score >= best_of(entries.drop_last()).score {
            entries.len() - 1
        } else {
            earlier
        };
        assert forall|k: int| 0 <= k < entries.len() implies entries[k].score
            <= entries[m].score by {
            if k < entries.len() - 1 {
                assert(entries.drop_last()[k] == entries[k]);
            }
        }
        m
    }
}

/// Two tokens collect the same whichever of them is called the first.
pub proof fn lemma_collected_symmetric(grid: &Grid, path1: Seq<Point>, path2: Seq<Point>)
    requires
        path1.len() == path2.len(),
    ensures
        collected(grid, path1, path2) == collected(grid, path2, path1),
    decreases path1.len(),
{
    if path1.len() > 1 {
        lemma_collected_symmetric(grid, path1.drop_last(), path2.drop_last());
    }
}

proof fn lemma_leads_to_swapped(grid: &Grid, entry: Entry, pair: PointPair)
    requires
        leads_to(grid, entry, pair),
        entry.path1.len() == entry.path2.len(),
    ensures
        leads_to(grid, entry.swapped(), PointPair(pair.1, pair.0)),
{
    lemma_collected_symmetric(grid, entry.path1, entry.path2);
}

proof fn lemma_walk_extended(grid: &Grid, path: Seq<Point>, p: Point)
    requires
        is_walk(grid, path),
        grid.in_bounds(p),
        steps_onto(path.last(), p),
        grid.unblocked(path.last()),
    ensures
        is_walk(grid, path.push(p)),
{
    let longer = path.push(p);
    assert forall|k: int| 0 <= k < longer.len() implies grid.in_bounds(#[trigger] longer[k]) by {
        if k < path.len() {
            assert(longer[k] == path[k]);
        }
    }
    assert forall|k: int| 0 <= k < longer.len() - 1 implies #[trigger] is_move(
        grid,
        longer,
        k,
    ) by {
        assert(longer[k] == path[k]);
        if k < path.len() - 1 {
            assert(longer[k + 1] == path[k + 1]);
            assert(is_move(grid, path, k));
        }
    }
}

proof fn lemma_leads_to_extended(grid: &Grid, entry: Entry, from: PointPair, pair: PointPair)
    requires
        leads_to(grid, entry, from),
        entry.path1.len() == entry.path2.len(),
        grid.in_bounds(pair.0),
        grid.in_bounds(pair.1),
        steps_onto(from.0, pair.0),
        steps_onto(from.1, pair.1),
        grid.unblocked(from.0),
        grid.unblocked(from.1),
    ensures
        leads_to(grid, entry.extended(grid, pair.0, pair.1), pair),
{
    let longer = entry.extended(grid, pair.0, pair.1);
    lemma_walk_extended(grid, entry.path1, pair.0);
    lemma_walk_extended(grid, entry.path2, pair.1);
    assert(longer.path1.drop_last() == entry.path1);
    assert(longer.path2.drop_last() == entry.path2);
}

/// What the sweep settles for a pair at step `i` has two paths of one
/// length, of `i + 1` points at most. Where they have `i + 1` points, they
/// are the ways of two tokens from the first cell to the pair, and the
/// score is what the tokens collect on them.
pub proof fn lemma_settled_walks(grid: &Grid, i: int, pair: PointPair)
    requires
        grid.wf(),
        grid.in_bounds(pair.0),
        grid.in_bounds(pair.1),
        pair.0.0 + pair.0.1 == i,
        pair.1.0 + pair.1.1 == i,
    ensures
        settled(grid, i, pair).path1.len() == settled(grid, i, pair).path2.len(),
        settled(grid, i, pair).path1.len() <= i + 1,
        settled(grid, i, pair).path1.len() == i + 1 ==> leads_to(
            grid,
            settled(grid, i, pair),
            pair,
        ),
    decreases i,
{
    let preds = pair.predecessor_pairs(grid);
    if i > 0 && preds.len() > 0 {
        let entries = recorded_all(grid, i - 1, preds);
        let m: int = lemma_best_of_is_member(entries);
        let q = preds[m];
        lemma_predecessor_pair(grid, pair, m);
        let exchanged = !in_order(grid, i - 1, q.0, q.1);
        let filed = if exchanged {
            PointPair(q.1, q.0)
        } else {
            q
        };
        lemma_settled_walks(grid, i - 1, filed);
        let before = recorded(grid, i - 1, q);
        assert(entries[m] == before);
        assert(settled(grid, i, pair) == before.extended(grid, pair.0, pair.1));
        if before.path1.len() == i {
            if exchanged {
                lemma_leads_to_swapped(grid, settled(grid, i - 1, filed), filed);
            }
            lemma_leads_to_extended(grid, before, q, pair);
        }
    }
}

/// A way of `n` points ends `n - 1` steps away from the first cell, and
/// without its last point it is a way still.
pub proof fn lemma_walk_prefix(grid: &Grid, path: Seq<Point>)
    requires
        is_walk(grid, path),
    ensures
        path.last().0 + path.last().1 == path.len() - 1,
        path.len() > 1 ==> is_walk(grid, path.drop_last()),
    decreases path.len(),
{
    if path.len() > 1 {
        let shorter = path.drop_last();
        assert forall|k: int| 0 <= k < shorter.len() implies grid.in_bounds(
            #[trigger] shorter[k],
        ) by {
            assert(shorter[k] == path[k]);
        }
        assert forall|k: int| 0 <= k < shorter.len() - 1 implies #[trigger] is_move(
            grid,
            shorter,
            k,
        ) by {
            assert(shorter[k] == path[k]);
            assert(shorter[k + 1] == path[k + 1]);
            assert(is_move(grid, path, k));
        }
        lemma_walk_prefix(grid, shorter);
        assert(is_move(grid, path, path.len() - 2));
    }
}

/// What the sweep settles for a pair at step `i` has a score no lower than
/// what two tokens collect on any two ways to the pair.
pub proof fn lemma_settled_is_best(
    grid: &Grid,
    i: int,
    pair: PointPair,
    way1: Seq<Point>,
    way2: Seq<Point>,
)
    requires
        grid.wf(),
        is_walk(grid, way1),
        is_walk(grid, way2),
        way1.len() == i + 1,
        way2.len() == i + 1,
        way1.last() == pair.0,
        way2.last() == pair.1,
    ensures
        settled(grid, i, pair).score >= collected(grid, way1, way2),
    decreases i,
{
    if i > 0 {
        lemma_walk_prefix(grid, way1);
        lemma_walk_prefix(grid, way2);
        let from = PointPair(way1[i - 1], way2[i - 1]);
        assert(is_move(grid, way1, i - 1));
        assert(is_move(grid, way2, i - 1));
        let k: int = lemma_is_predecessor_pair(grid, pair, from);
        let preds = pair.predecessor_pairs(grid);
        let entries = recorded_all(grid, i - 1, preds);
        let m: int = lemma_best_of_is_member(entries);
        assert(entries[k] == recorded(grid, i - 1, from));
        if in_order(grid, i - 1, from.0, from.1) {
            lemma_settled_is_best(grid, i - 1, from, way1.drop_last(), way2.drop_last());
        } else {
            lemma_settled_is_best(
                grid,
                i - 1,
                PointPair(from.1, from.0),
                way2.drop_last(),
                way1.drop_last(),
            );
            lemma_collected_symmetric(grid, way1.drop_last(), way2.drop_last());
        }
        assert(entries[k].score <= entries[m].score);
    }
}

/// A way of `2 * size - 1` points ends on the last cell.
pub proof fn lemma_full_walk_ends_on_last_cell(grid: &Grid, way: Seq<Point>)
    requires
        grid.wf(),
        is_walk(grid, way),
        way.len() == 2 * grid.size - 1,
    ensures
        way.last() == end_pair(grid).0,
{
    lemma_walk_prefix(grid, way);
    assert(grid.in_bounds(way[way.len() - 1]));
}

/// No two tokens collect more on their ways from the first cell to the
/// last than the score of the answer.
pub proof fn lemma_solution_is_best(grid: &Grid, way1: Seq<Point>, way2: Seq<Point>)
    requires
        grid.wf(),
        is_walk(grid, way1),
        is_walk(grid, way2),
        way1.len() == 2 * grid.size - 1,
        way2.len() == 2 * grid.size - 1,
    ensures
        solution(grid).score >= collected(grid, way1, way2),
{
    lemma_full_walk_ends_on_last_cell(grid, way1);
    lemma_full_walk_ends_on_last_cell(grid, way2);
    lemma_settled_is_best(grid, 2 * grid.size - 2, end_pair(grid), way1, way2);
}

/// The answer has two paths of one length, of `2 * size - 1` points at
/// most. Where they have that many, they are the ways of two tokens from
/// the first cell to the last, and the score is what the tokens collect on
/// them.
pub proof fn lemma_solution_walks(grid: &Grid)
    requires
        grid.wf(),
    ensures
        solution(grid).path1.len() == solution(grid).path2.len(),
        solution(grid).path1.len() <= 2 * grid.size - 1,
        solution(grid).path1.len() == 2 * grid.size - 1 ==> leads_to(
            grid,
            solution(grid),
            end_pair(grid),
        ),
{
    lemma_settled_walks(grid, 2 * grid.size - 2, end_pair(grid));
}

/// Where no token can walk from the first cell to the last, the paths of
/// the answer fall short of `2 * size - 1` points.
pub proof fn lemma_blocked_grid_has_no_complete_answer(grid: &Grid)
    requires
        grid.wf(),
        forall|path: Seq<Point>|
            !(#[trigger] is_walk(grid, path) && path.len() == 2 * grid.size - 1 && path.last()
                == end_pair(grid).0),
    ensures
        solution(grid).path1.len() < 2 * grid.size - 1,
        solution(grid).path2.len() < 2 * grid.size - 1,
{
    lemma_solution_walks(grid);
    if solution(grid).path1.len() == 2 * grid.size - 1 {
        assert(is_walk(grid, solution(grid).path1));
    }
}

} // verus!
