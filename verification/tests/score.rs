use cherrypick::grid::{Grid, Point, PointPair};
use cherrypick::score::PairScore;
use cherrypick::table::ScoreTable;

#[test]
fn start_stands_on_the_first_cell_with_nothing_collected() {
    let first = PairScore::start();
    assert_eq!(first.score, 0);
    assert_eq!(first.path1, vec![Point(0, 0)]);
    assert_eq!(first.path2, vec![Point(0, 0)]);
}

#[test]
fn new_has_the_score_and_no_paths() {
    let dead = PairScore::new(-1);
    assert_eq!(dead.score, -1);
    assert_eq!(dead.path1, vec![]);
    assert_eq!(dead.path2, vec![]);
    assert_eq!(PairScore::new(17).score, 17);
}

#[test]
fn append_adds_both_values_and_both_points() {
    let grid = Grid::new(vec![vec![0, 3], vec![4, 5]]).unwrap();
    let first = PairScore::start();
    let next = first.append(&grid, Point(0, 1), Point(1, 0));
    assert_eq!(next.score, 7);
    assert_eq!(next.path1, vec![Point(0, 0), Point(0, 1)]);
    assert_eq!(next.path2, vec![Point(0, 0), Point(1, 0)]);
    assert_eq!(first.score, 0);
    assert_eq!(first.path1, vec![Point(0, 0)]);
    assert_eq!(first.path2, vec![Point(0, 0)]);
}

#[test]
fn append_counts_a_shared_cell_once() {
    let grid = Grid::new(vec![vec![0, 3], vec![4, 5]]).unwrap();
    let same = PairScore::start().append(&grid, Point(0, 1), Point(0, 1));
    assert_eq!(same.score, 3);
    let last = same.append(&grid, Point(1, 1), Point(1, 1));
    assert_eq!(last.score, 8);
    assert_eq!(last.path1, vec![Point(0, 0), Point(0, 1), Point(1, 1)]);
    assert_eq!(last.path2, vec![Point(0, 0), Point(0, 1), Point(1, 1)]);
}

#[test]
fn append_reaches_the_ends_of_the_score_range() {
    let grid = Grid::new(vec![vec![0, i32::MAX], vec![i32::MAX, i32::MIN]]).unwrap();
    let top = PairScore::new(-1).append(&grid, Point(0, 1), Point(0, 1));
    assert_eq!(top.score, i32::MAX - 1);
    let both = PairScore::new(-i32::MAX).append(&grid, Point(0, 1), Point(1, 0));
    assert_eq!(both.score, i32::MAX);
    let low = PairScore::new(0).append(&grid, Point(1, 1), Point(1, 1));
    assert_eq!(low.score, i32::MIN);
}

#[test]
fn swapped_exchanges_the_paths() {
    let entry = PairScore { score: 6, path1: vec![Point(0, 0), Point(0, 1)], path2: vec![Point(0, 0)] };
    let other = entry.swapped();
    assert_eq!(other.score, 6);
    assert_eq!(other.path1, vec![Point(0, 0)]);
    assert_eq!(other.path2, vec![Point(0, 0), Point(0, 1)]);
}

#[test]
fn table_returns_what_was_filed() {
    let mut table = ScoreTable::new();
    let a = PointPair(Point(0, 1), Point(1, 0));
    let b = PointPair(Point(1, 0), Point(0, 1));
    let c = PointPair(Point(0, 1), Point(0, 1));
    assert!(table.get(a).is_none());
    table.insert(a, PairScore::new(5));
    assert_eq!(table.get(a).unwrap().score, 5);
    assert!(table.get(b).is_none());
    assert!(table.get(c).is_none());
    table.insert(c, PairScore::start());
    table.insert(b, PairScore::new(9));
    assert_eq!(table.get(a).unwrap().score, 5);
    assert_eq!(table.get(b).unwrap().score, 9);
    assert_eq!(table.get(c).unwrap().path1, vec![Point(0, 0)]);
}

#[test]
fn table_tells_rows_from_columns() {
    let mut table = ScoreTable::new();
    table.insert(PointPair(Point(1, 0), Point(0, 0)), PairScore::new(1));
    assert!(table.get(PointPair(Point(0, 1), Point(0, 0))).is_none());
    assert!(table.get(PointPair(Point(0, 0), Point(1, 0))).is_none());
    table.insert(PointPair(Point(0, 1), Point(0, 0)), PairScore::new(2));
    assert_eq!(table.get(PointPair(Point(1, 0), Point(0, 0))).unwrap().score, 1);
    assert_eq!(table.get(PointPair(Point(0, 1), Point(0, 0))).unwrap().score, 2);
}
