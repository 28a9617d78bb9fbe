use crate::grid::{Grid, Point};
use vstd::prelude::*;

verus! {

/// What is known of one pair of positions: the best value collected on the
/// way there, and the way of each token. The mathematical counterpart of
/// `PairScore`.
pub struct Entry {
    pub score: int,
    pub path1: Seq<Point>,
    pub path2: Seq<Point>,
}

/// What the two tokens collect when they step onto `p1` and `p2`: the values
/// of the two cells, or that of the one cell where they share it.
pub open spec fn gain(grid: &Grid, p1: Point, p2: Point) -> int {
    if p1 == p2 {
        grid.value(p1)
    } else {
        grid.value(p1) + grid.value(p2)
    }
}

impl Entry {
    /// Both tokens on the first cell, nothing collected.
    pub open spec fn start() -> Entry {
        Entry { score: 0, path1: seq![Point(0, 0)], path2: seq![Point(0, 0)] }
    }

    /// A pair of positions onto which the tokens cannot step.
    pub open spec fn dead() -> Entry {
        Entry { score: -1, path1: Seq::empty(), path2: Seq::empty() }
    }

    /// The same entry with the two tokens exchanged.
    pub open spec fn swapped(self) -> Entry {
        Entry { score: self.score, path1: self.path2, path2: self.path1 }
    }

    /// The entry after one more step, onto `p1` and `p2`.
    pub open spec fn extended(self, grid: &Grid, p1: Point, p2: Point) -> Entry {
        Entry {
            score: self.score + gain(grid, p1, p2),
            path1: self.path1.push(p1),
            path2: self.path2.push(p2),
        }
    }
}

/// The best value collected on the way to a pair of positions, and the way
/// of each token. A score of `-1` with empty paths marks a pair onto which
/// the tokens cannot step.
#[derive(Clone, Debug)]
pub struct PairScore {
    pub score: i32,
    pub path1: Vec<Point>,
    pub path2: Vec<Point>,
}

impl View for PairScore {
    type V = Entry;

    open spec fn view(&self) -> Entry {
        Entry { score: self.score as int, path1: self.path1@, path2: self.path2@ }
    }
}

/// A copy of `path`.
fn copy_of(path: &Vec<Point>) -> (copy: Vec<Point>)
    ensures
        copy@ == path@,
{
    let mut copy: Vec<Point> = Vec::with_capacity(path.len());
    let mut k: usize = 0;
    while k < path.len()
        invariant
            k <= path@.len(),
            copy@ == path@.take(k as int),
        decreases path@.len() - k,
    {
        copy.push(path[k]);
        proof {
            assert(path@.take(k + 1) == path@.take(k as int).push(path@[k as int]));
        }
        k += 1;
    }
    proof {
        assert(path@.take(k as int) == path@);
    }
    copy
}

/// A copy of `path` with `p` added at its end.
fn path_with(path: &Vec<Point>, p: Point) -> (longer: Vec<Point>)
    ensures
        longer@ == path@.push(p),
{
    let mut longer = copy_of(path);
    longer.push(p);
    longer
}

/// What the two tokens collect when they step onto `p1` and `p2`.
pub(crate) fn gain_of(grid: &Grid, p1: Point, p2: Point) -> (collected: i64)
    requires
        grid.wf(),
        grid.in_bounds(p1),
        grid.in_bounds(p2),
    ensures
        collected == gain(grid, p1, p2),
{
    if p1 == p2 {
        p1.score(grid) as i64
    } else {
        p1.score(grid) as i64 + p2.score(grid) as i64
    }
}

impl PairScore {
    /// Both tokens on the first cell, nothing collected.
    pub fn start() -> (first: PairScore)
        ensures
            first@ == Entry::start(),
    {
        let mut path1: Vec<Point> = Vec::new();
        path1.push(Point(0, 0));
        let mut path2: Vec<Point> = Vec::new();
        path2.push(Point(0, 0));
        let first = PairScore { score: 0, path1, path2 };
        proof {
            assert(first.path1@ == seq![Point(0, 0)]);
            assert(first.path2@ == seq![Point(0, 0)]);
        }
        first
    }

    /// An entry with the given score and no paths.
    pub fn new(score: i32) -> (made: PairScore)
        ensures
            made@ == (Entry { score: score as int, path1: Seq::empty(), path2: Seq::empty() }),
    {
        PairScore { score, path1: Vec::new(), path2: Vec::new() }
    }

    /// The entry with the two tokens exchanged. The paths are copied.
    pub fn swapped(&self) -> (other: PairScore)
        ensures
            other@ == self@.swapped(),
    {
        PairScore { score: self.score, path1: copy_of(&self.path2), path2: copy_of(&self.path1) }
    }

    /// The entry after one more step, onto `p1` and `p2`. The paths are
    /// copied: `self` stays as it is. Two tokens on one cell collect its
    /// value once.
    pub fn append(&self, grid: &Grid, p1: Point, p2: Point) -> (longer: PairScore)
        requires
            grid.wf(),
            grid.in_bounds(p1),
            grid.in_bounds(p2),
            i32::MIN <= self.score + gain(grid, p1, p2) <= i32::MAX,
        ensures
            longer@ == self@.extended(grid, p1, p2),
    {
        let score: i32 = (self.score as i64 + gain_of(grid, p1, p2)) as i32;
        PairScore { score, path1: path_with(&self.path1, p1), path2: path_with(&self.path2, p2) }
    }
}

} // verus!
