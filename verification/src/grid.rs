use crate::pair_iter::{all_pairs, pairs_of};
use itertools::Itertools;
use vstd::prelude::*;
use vstd::std_specs::convert::FromSpecImpl;

verus! {

/// A square matrix of cell values. A negative value marks a blocked cell.
#[derive(Debug)]
pub struct Grid {
    pub data: Vec<Vec<i32>>,
    pub size: usize,
}

/// A cell coordinate: row, then column.
#[derive(Clone, Copy, Debug, PartialEq, Eq, Hash, Structural)]
pub struct Point(pub usize, pub usize);

/// The positions of the two tokens at one step.
#[derive(Clone, Copy, Debug, PartialEq, Eq, Hash, Structural)]
pub struct PointPair(pub Point, pub Point);

/// Why a matrix cannot serve as a grid.
#[derive(Clone, Copy, Debug, PartialEq, Eq, Structural)]
pub enum ShapeError {
    /// The matrix has no rows.
    Empty,
    /// Some row differs in length from the first one.
    Ragged,
    /// The rows are equally long, but their length is not the row count.
    NotSquare,
    /// The side is so long that the index of the last step, `2 * side - 2`,
    /// does not fit in `usize`. No vector that fits in memory is that long.
    TooLarge,
}

/// The defect that `Grid::new` reports for `rows`, if any. The defects are
/// tested in the order of the enum's variants.
pub open spec fn shape_error(rows: Seq<Vec<i32>>) -> Option<ShapeError> {
    if rows.len() == 0 {
        Some(ShapeError::Empty)
    } else if exists|r: int| 0 <= r < rows.len() && (#[trigger] rows[r])@.len() != rows[0]@.len() {
        Some(ShapeError::Ragged)
    } else if rows[0]@.len() != rows.len() {
        Some(ShapeError::NotSquare)
    } else if 2 * rows.len() - 2 > usize::MAX {
        Some(ShapeError::TooLarge)
    } else {
        None
    }
}

/// Each pair of points as the positions of the two tokens.
pub open spec fn as_pairs(tuples: Seq<(Point, Point)>) -> Seq<PointPair> {
    tuples.map_values(|t: (Point, Point)| PointPair(t.0, t.1))
}

fn pairs_from_tuples(tuples: Vec<(Point, Point)>) -> (pairs: Vec<PointPair>)
    ensures
        pairs@ == as_pairs(tuples@),
{
    let mut pairs: Vec<PointPair> = Vec::with_capacity(tuples.len());
    let mut k: usize = 0;
    while k < tuples.len()
        invariant
            k <= tuples@.len(),
            pairs@ == as_pairs(tuples@.take(k as int)),
        decreases tuples@.len() - k,
    {
        let t = tuples[k];
        pairs.push(PointPair(t.0, t.1));
        proof {
            assert(tuples@.take(k + 1) == tuples@.take(k as int).push(tuples@[k as int]));
        }
        k += 1;
    }
    proof {
        assert(tuples@.take(k as int) == tuples@);
    }
    pairs
}

impl Grid {
    /// The grid is square, not empty, and `size` is its side.
    pub open spec fn wf(&self) -> bool {
        &&& self.size == self.data@.len()
        &&& 0 < self.size
        &&& 2 * self.size - 2 <= usize::MAX
        &&& forall|r: int| 0 <= r < self.data@.len() ==> (#[trigger] self.data@[r])@.len() == self.size
    }

    /// The value of the cell in row `r`, column `c`.
    pub open spec fn cell(&self, r: int, c: int) -> int {
        self.data@[r]@[c] as int
    }

    /// The cell in the last row and the last column.
    pub open spec fn last_cell(&self) -> Point {
        Point((self.size - 1) as usize, (self.size - 1) as usize)
    }

    /// `p` lies inside the grid.
    pub open spec fn in_bounds(&self, p: Point) -> bool {
        p.0 < self.size && p.1 < self.size
    }

    /// The value of the cell at `p`.
    pub open spec fn value(&self, p: Point) -> int {
        self.cell(p.0 as int, p.1 as int)
    }

    /// The cell at `p` is not blocked.
    pub open spec fn unblocked(&self, p: Point) -> bool {
        self.value(p) >= 0
    }

    /// `p` is a cell of the grid that lies `step` moves away from the first
    /// cell and is not blocked.
    pub open spec fn free_at(&self, step: int, p: Point) -> bool {
        self.in_bounds(p) && p.0 + p.1 == step && self.unblocked(p)
    }

    /// `i` is a step at which both tokens stand strictly between the first
    /// and the last cell.
    pub open spec fn is_step(&self, i: int) -> bool {
        0 < i < 2 * self.size - 2
    }

    /// The anti-diagonal of step `i` has `span(i) + 1` cells.
    pub open spec fn span(&self, i: int) -> int {
        if i <= self.size - 1 {
            i
        } else {
            2 * self.size - 2 - i
        }
    }

    /// The `k`-th cell of the anti-diagonal of step `i`. Up to the main
    /// anti-diagonal the cells are counted from the top row downwards;
    /// beyond it, from the bottom row upwards.
    pub open spec fn candidate(&self, i: int, k: int) -> Point {
        if i <= self.size - 1 {
            Point(k as usize, (self.span(i) - k) as usize)
        } else {
            Point((self.size - 1 - k) as usize, (self.size - 1 - (self.span(i) - k)) as usize)
        }
    }

    /// The place of `p` in the count of `candidate`.
    pub open spec fn slot(&self, i: int, p: Point) -> int {
        if i <= self.size - 1 {
            p.0 as int
        } else {
            self.size - 1 - p.0
        }
    }

    /// Those of the first `k` cells of the anti-diagonal of step `i` that are
    /// not blocked, in the order of `candidate`.
    pub open spec fn points_among(&self, i: int, k: int) -> Seq<Point>
        decreases k,
    {
        if k <= 0 {
            Seq::empty()
        } else if self.unblocked(self.candidate(i, k - 1)) {
            self.points_among(i, k - 1).push(self.candidate(i, k - 1))
        } else {
            self.points_among(i, k - 1)
        }
    }

    /// The cells on which a token can stand at step `i`.
    pub open spec fn step_points(&self, i: int) -> Seq<Point> {
        self.points_among(i, self.span(i) + 1)
    }

    /// The positions that the two tokens can take at step `i`: every
    /// unordered pair of `step_points(i)`, the earlier point first.
    pub open spec fn step_pairs(&self, i: int) -> Seq<PointPair> {
        as_pairs(all_pairs(self.step_points(i)))
    }

    /// Builds a grid from its rows, or says what is wrong with their shape.
    pub fn new(data: Vec<Vec<i32>>) -> (made: Result<Grid, ShapeError>)
        ensures
            match shape_error(data@) {
                Some(e) => made == Err::<Grid, ShapeError>(e),
                None => made matches Ok(g) && g.data == data && g.size == data@.len() && g.wf(),
            },
    {
        let height: usize = data.len();
        if height == 0 {
            return Err(ShapeError::Empty);
        }
        let width: usize = data[0].len();
        let mut r: usize = 0;
        while r < height
            invariant
                r <= height,
                height == data@.len(),
                width == data@[0]@.len(),
                forall|q: int| 0 <= q < r ==> (#[trigger] data@[q])@.len() == width,
            decreases height - r,
        {
            if data[r].len() != width {
                return Err(ShapeError::Ragged);
            }
            r += 1;
        }
        if width != height {
            return Err(ShapeError::NotSquare);
        }
        if height - 1 > usize::MAX / 2 {
            return Err(ShapeError::TooLarge);
        }
        Ok(Grid { data, size: width })
    }

    /// The cells that are not blocked on the anti-diagonal of step `i`.
    /// `None` where `i` is no step between the first and the last cell.
    pub fn points_step_i(&self, i: usize) -> (points: Option<Vec<Point>>)
        requires
            self.wf(),
        ensures
            match points {
                Some(ps) => self.is_step(i as int) && ps@ == self.step_points(i as int),
                None => !self.is_step(i as int),
            },
    {
        let last: usize = 2 * (self.size - 1);
        if i == 0 || i >= last {
            return None;
        }
        let ascending = i <= self.size - 1;
        let k_max: usize = if ascending {
            i
        } else {
            last - i
        };
        let mut points: Vec<Point> = Vec::new();
        let mut k: usize = 0;
        while k <= k_max
            invariant
                self.wf(),
                self.is_step(i as int),
                ascending == (i <= self.size - 1),
                k_max == self.span(i as int),
                k <= k_max + 1,
                points@ == self.points_among(i as int, k as int),
            decreases k_max + 1 - k,
        {
            let p = if ascending {
                Point::from_tuple((k, k_max - k))
            } else {
                Point::from_tuple_sym((k, k_max - k), self.size)
            };
            assert(p == self.candidate(i as int, k as int));
            if p.is_valid(self) {
                points.push(p);
            }
            k += 1;
        }
        Some(points)
    }

    /// The positions that the two tokens can take at step `i`. `None` where
    /// `i` is no step between the first and the last cell.
    pub fn pairs_iter_step_i(&self, i: usize) -> (pairs: Option<Vec<PointPair>>)
        requires
            self.wf(),
        ensures
            match pairs {
                Some(ps) => self.is_step(i as int) && ps@ == self.step_pairs(i as int),
                None => !self.is_step(i as int),
            },
    {
        let points = match self.points_step_i(i) {
            Some(points) => points,
            None => {
                return None;
            },
        };
        let pairs = match pairs_of(points) {
            Some(tuples) => pairs_from_tuples(tuples),
            None => Vec::new(),
        };
        Some(pairs)
    }

    /// The steps at which both tokens stand strictly between the first and the
    /// last cell: `1`, ..., `2 * size - 3`.
    pub fn steps_i(&self) -> (steps: std::ops::Range<usize>)
        requires
            self.wf(),
        ensures
            steps.start == 1,
            steps.end == 2 * self.size - 2,
    {
        1..2 * (self.size - 1)
    }
}

impl std::ops::Deref for Grid {
    type Target = Vec<Vec<i32>>;

    /// The rows of the grid.
    fn deref(&self) -> (rows: &Vec<Vec<i32>>)
        ensures
            *rows == self.data,
    {
        &self.data
    }
}

impl Point {
    /// The cell one row up. Meaningful where the row is not the first.
    pub open spec fn up(self) -> Point {
        Point((self.0 - 1) as usize, self.1)
    }

    /// The cell one column to the left. Meaningful where the column is not
    /// the first.
    pub open spec fn left(self) -> Point {
        Point(self.0, (self.1 - 1) as usize)
    }

    /// The cells from which a token can step onto `self`: the one above, then
    /// the one to the left, each only if it exists and is not blocked.
    pub open spec fn predecessors_in(self, grid: &Grid) -> Seq<Point> {
        let from_above = if self.0 > 0 && grid.unblocked(self.up()) {
            seq![self.up()]
        } else {
            Seq::<Point>::empty()
        };
        let from_left = if self.1 > 0 && grid.unblocked(self.left()) {
            seq![self.left()]
        } else {
            Seq::<Point>::empty()
        };
        from_above + from_left
    }

    /// The point with the row and the column of `t`.
    pub fn from_tuple(t: (usize, usize)) -> (p: Point)
        ensures
            p == Point(t.0, t.1),
    {
        Point(t.0, t.1)
    }

    /// The point that mirrors `t` through the centre of a grid of side `size`.
    pub fn from_tuple_sym(t: (usize, usize), size: usize) -> (p: Point)
        requires
            t.0 < size,
            t.1 < size,
        ensures
            p == Point((size - 1 - t.0) as usize, (size - 1 - t.1) as usize),
    {
        Point(size - 1 - t.0, size - 1 - t.1)
    }

    /// The value of the cell at this point.
    pub fn score(&self, grid: &Grid) -> (value: i32)
        requires
            grid.wf(),
            grid.in_bounds(*self),
        ensures
            value == grid.value(*self),
    {
        grid.data[self.0][self.1]
    }

    /// Whether the cell at this point is not blocked.
    pub fn is_valid(&self, grid: &Grid) -> (valid: bool)
        requires
            grid.wf(),
            grid.in_bounds(*self),
        ensures
            valid == grid.unblocked(*self),
    {
        self.score(grid) >= 0
    }

    /// The cells from which a token can step onto this one.
    pub fn valid_predecessors(&self, grid: &Grid) -> (preds: Vec<Point>)
        requires
            grid.wf(),
            grid.in_bounds(*self),
        ensures
            preds@ == self.predecessors_in(grid),
    {
        let mut result: Vec<Point> = Vec::with_capacity(2);
        if self.0 > 0 && grid.data[self.0 - 1][self.1] >= 0 {
            result.push(Point(self.0 - 1, self.1));
        }
        if self.1 > 0 && grid.data[self.0][self.1 - 1] >= 0 {
            result.push(Point(self.0, self.1 - 1));
        }
        result
    }
}

impl From<(usize, usize)> for Point {
    fn from(t: (usize, usize)) -> (p: Point) {
        Point(t.0, t.1)
    }
}

impl FromSpecImpl<(usize, usize)> for Point {
    open spec fn obeys_from_spec() -> bool {
        true
    }

    open spec fn from_spec(t: (usize, usize)) -> Point {
        Point(t.0, t.1)
    }
}

/// Every element of `first` paired with every element of `second`: the pairs
/// of the first element come first, in the order of `second`, then those of
/// the next one.
pub open spec fn cross(first: Seq<Point>, second: Seq<Point>) -> Seq<(Point, Point)>
    decreases first.len(),
{
    if first.len() == 0 {
        Seq::empty()
    } else {
        cross(first.drop_last(), second) + second.map_values(|q: Point| (first.last(), q))
    }
}

/// `cross` has a pair for every element of `first` and every element of
/// `second`.
pub proof fn lemma_cross_len(first: Seq<Point>, second: Seq<Point>)
    ensures
        cross(first, second).len() == first.len() * second.len(),
    decreases first.len(),
{
    if first.len() > 0 {
        lemma_cross_len(first.drop_last(), second);
        assert((first.len() - 1) * second.len() + second.len() == first.len() * second.len())
            by (nonlinear_arith);
    } else {
        assert(0 * second.len() == 0) by (nonlinear_arith);
    }
}

/// Every pair of `cross` holds an element of `first` and one of `second`.
/// The lemma returns where they stand.
pub proof fn lemma_cross_member(first: Seq<Point>, second: Seq<Point>, k: int) -> (xy: (int, int))
    requires
        0 <= k < cross(first, second).len(),
    ensures
        0 <= xy.0 < first.len(),
        0 <= xy.1 < second.len(),
        cross(first, second)[k] == (first[xy.0], second[xy.1]),
    decreases first.len(),
{
    let earlier = cross(first.drop_last(), second);
    if k < earlier.len() {
        lemma_cross_member(first.drop_last(), second, k)
    } else {
        (first.len() - 1, k - earlier.len())
    }
}

/// A token on `a` can step onto `b`: `b` is the cell below `a` or the one
/// to its right.
pub open spec fn steps_onto(a: Point, b: Point) -> bool {
    (b.0 == a.0 + 1 && b.1 == a.1) || (b.0 == a.0 && b.1 == a.1 + 1)
}

/// Each predecessor pair holds, for either token, a cell of the grid that is
/// not blocked and from which the token can step onto its cell of `pair`.
pub proof fn lemma_predecessor_pair(grid: &Grid, pair: PointPair, k: int)
    requires
        grid.wf(),
        grid.in_bounds(pair.0),
        grid.in_bounds(pair.1),
        0 <= k < pair.predecessor_pairs(grid).len(),
    ensures
        grid.free_at(pair.0.0 + pair.0.1 - 1, pair.predecessor_pairs(grid)[k].0),
        grid.free_at(pair.1.0 + pair.1.1 - 1, pair.predecessor_pairs(grid)[k].1),
        steps_onto(pair.predecessor_pairs(grid)[k].0, pair.0),
        steps_onto(pair.predecessor_pairs(grid)[k].1, pair.1),
{
    let first = pair.0.predecessors_in(grid);
    let second = pair.1.predecessors_in(grid);
    let xy = lemma_cross_member(first, second, k);
    assert(first[xy.0] == pair.0.up() || first[xy.0] == pair.0.left());
    assert(second[xy.1] == pair.1.up() || second[xy.1] == pair.1.left());
}

/// A pair has as many predecessor pairs as the product of the two points'
/// predecessors says: four at most, and none exactly where one of the two
/// points has no predecessor.
pub proof fn lemma_predecessor_count(grid: &Grid, pair: PointPair)
    ensures
        pair.predecessor_pairs(grid).len() == pair.0.predecessors_in(grid).len()
            * pair.1.predecessors_in(grid).len(),
        pair.predecessor_pairs(grid).len() <= 4,
        pair.predecessor_pairs(grid).len() == 0 <==> pair.0.predecessors_in(grid).len() == 0
            || pair.1.predecessors_in(grid).len() == 0,
{
    let first = pair.0.predecessors_in(grid);
    let second = pair.1.predecessors_in(grid);
    lemma_cross_len(first, second);
    assert(first.len() <= 2 && second.len() <= 2);
    assert(first.len() * second.len() <= 4 && (first.len() * second.len() == 0 <==> first.len() == 0
        || second.len() == 0)) by (nonlinear_arith)
        requires
            first.len() <= 2,
            second.len() <= 2,
    ;
}

/// Every element of `first` stands with every element of `second` in
/// `cross`. The lemma returns the pair's position.
pub proof fn lemma_cross_contains(first: Seq<Point>, second: Seq<Point>, x: int, y: int) -> (k: int)
    requires
        0 <= x < first.len(),
        0 <= y < second.len(),
    ensures
        0 <= k < cross(first, second).len(),
        cross(first, second)[k] == (first[x], second[y]),
    decreases first.len(),
{
    let earlier = cross(first.drop_last(), second);
    if x < first.len() - 1 {
        lemma_cross_contains(first.drop_last(), second, x, y)
    } else {
        earlier.len() + y
    }
}

/// Two cells that are not blocked, from which the two tokens can step onto
/// `pair`, form a predecessor pair of `pair`. The lemma returns its
/// position.
pub proof fn lemma_is_predecessor_pair(grid: &Grid, pair: PointPair, from: PointPair) -> (k: int)
    requires
        grid.wf(),
        grid.in_bounds(pair.0),
        grid.in_bounds(pair.1),
        steps_onto(from.0, pair.0),
        steps_onto(from.1, pair.1),
        grid.unblocked(from.0),
        grid.unblocked(from.1),
    ensures
        0 <= k < pair.predecessor_pairs(grid).len(),
        pair.predecessor_pairs(grid)[k] == from,
{
    let first = pair.0.predecessors_in(grid);
    let second = pair.1.predecessors_in(grid);
    let x: int = if from.0 == pair.0.up() {
        0
    } else {
        first.len() - 1
    };
    let y: int = if from.1 == pair.1.up() {
        0
    } else {
        second.len() - 1
    };
    assert(first[x] == from.0);
    assert(second[y] == from.1);
    lemma_cross_contains(first, second, x, y)
}

/// Calls `Itertools::cartesian_product` on the two vectors' iterators and
/// collects what it yields. Trusted: the adaptor walks `first` once and, for
/// each of its items, a fresh copy of the iterator over `second`, so the
/// result is `cross` of the two.
#[verifier::external_body]
fn cartesian_product(first: Vec<Point>, second: Vec<Point>) -> (pairs: Vec<(Point, Point)>)
    requires
        first@.len() * second@.len() <= usize::MAX,
    ensures
        pairs@ == cross(first@, second@),
{
    first.into_iter().cartesian_product(second.into_iter()).collect()
}

impl PointPair {
    /// The pairs from which the two tokens can step onto this pair: every
    /// predecessor of the first point with every predecessor of the second.
    pub open spec fn predecessor_pairs(self, grid: &Grid) -> Seq<PointPair> {
        as_pairs(cross(self.0.predecessors_in(grid), self.1.predecessors_in(grid)))
    }

    /// Both tokens on the first cell.
    pub fn zero() -> (pair: PointPair)
        ensures
            pair == PointPair(Point(0, 0), Point(0, 0)),
    {
        PointPair(Point(0, 0), Point(0, 0))
    }

    /// Both tokens on the last cell.
    pub fn end(grid: &Grid) -> (pair: PointPair)
        requires
            grid.wf(),
        ensures
            pair == PointPair(grid.last_cell(), grid.last_cell()),
    {
        let s: usize = grid.size;
        PointPair(Point(s - 1, s - 1), Point(s - 1, s - 1))
    }

    /// The pairs from which the two tokens can step onto this pair.
    pub fn predecessors(&self, grid: &Grid) -> (preds: Vec<PointPair>)
        requires
            grid.wf(),
            grid.in_bounds(self.0),
            grid.in_bounds(self.1),
        ensures
            preds@ == self.predecessor_pairs(grid),
    {
        let pred1 = self.0.valid_predecessors(grid);
        let pred2 = self.1.valid_predecessors(grid);
        proof {
            lemma_predecessor_count(grid, *self);
        }
        pairs_from_tuples(cartesian_product(pred1, pred2))
    }
}

} // verus!
