use cherrypick::grid::{Grid, Point, ShapeError};
use cherrypick::solver::{cherry_pickup, solve, SolveError};

fn walks_down_or_right(path: &[Point]) -> bool {
    path.windows(2).all(|w| {
        (w[1].0 == w[0].0 + 1 && w[1].1 == w[0].1) || (w[1].0 == w[0].0 && w[1].1 == w[0].1 + 1)
    })
}

fn ways(size: usize) -> Vec<Vec<Point>> {
    let mut done = Vec::new();
    let mut open = vec![vec![Point(0, 0)]];
    while let Some(way) = open.pop() {
        let Point(r, c) = way[way.len() - 1];
        if r == size - 1 && c == size - 1 {
            done.push(way);
            continue;
        }
        if r + 1 < size {
            let mut longer = way.clone();
            longer.push(Point(r + 1, c));
            open.push(longer);
        }
        if c + 1 < size {
            let mut longer = way.clone();
            longer.push(Point(r, c + 1));
            open.push(longer);
        }
    }
    done
}

fn best_by_enumeration(rows: &[Vec<i32>]) -> Option<i32> {
    let size = rows.len();
    let open_ways: Vec<Vec<Point>> = ways(size)
        .into_iter()
        .filter(|way| way[..way.len() - 1].iter().all(|p| rows[p.0][p.1] >= 0))
        .collect();
    let mut best = None;
    for first in &open_ways {
        for second in &open_ways {
            let mut sum = 0;
            for k in 1..first.len() {
                sum += rows[first[k].0][first[k].1];
                if first[k] != second[k] {
                    sum += rows[second[k].0][second[k].1];
                }
            }
            if best.map_or(true, |b| sum > b) {
                best = Some(sum);
            }
        }
    }
    best
}

#[test]
fn complete_answers_collect_the_most_that_two_ways_can() {
    let grids = vec![
        vec![vec![0, 1, 1, 0], vec![0, 0, 0, 0], vec![1, 0, 0, 0], vec![0, 1, 0, 0]],
        vec![vec![0, 0, 0, 0], vec![0, -1, 1, 0], vec![1, 0, 0, 0], vec![0, 0, 0, 0]],
        vec![vec![0, 2, 3], vec![4, -1, 1], vec![1, 6, 5]],
        vec![vec![0, 1, -1], vec![1, 0, -1], vec![1, 1, 1]],
        vec![vec![3, 9, 2, 7], vec![1, 8, 4, 6], vec![5, 5, 5, 5], vec![9, 1, 9, 1]],
        vec![vec![1, 1, 1, 1, 0], vec![0, 0, -1, 1, 1], vec![1, 1, 1, -1, 1], vec![0, 7, 0, 1, 1], vec![1, 0, 1, 1, 1]],
        vec![vec![0, 3], vec![4, 5]],
        vec![vec![5]],
    ];
    for rows in grids {
        let size = rows.len();
        let best = cherry_pickup(rows.clone()).unwrap();
        assert_eq!(best.path1.len(), 2 * size - 1);
        assert_eq!(best.path2.len(), 2 * size - 1);
        assert!(walks_down_or_right(&best.path1));
        assert!(walks_down_or_right(&best.path2));
        assert_eq!(Some(best.score), best_by_enumeration(&rows));
    }
}

#[test]
fn solve_4() {
    let grid = vec![vec![0, 1, 1, 0], vec![0, 0, 0, 0], vec![1, 0, 0, 0], vec![0, 1, 0, 0]];
    let grid = Grid::new(grid).unwrap();
    println!("Grid size is 4\n");
    println!("{:?}", cherry_pickup(grid.data));
}

#[test]
fn golden_grid_collects_every_value() {
    let rows = vec![vec![0, 1, 1, 0], vec![0, 0, 0, 0], vec![1, 0, 0, 0], vec![0, 1, 0, 0]];
    let best = cherry_pickup(rows).unwrap();
    assert_eq!(best.score, 4);
    assert_eq!(
        best.path1,
        vec![Point(0, 0), Point(1, 0), Point(2, 0), Point(3, 0), Point(3, 1), Point(3, 2), Point(3, 3)]
    );
    assert_eq!(
        best.path2,
        vec![Point(0, 0), Point(0, 1), Point(0, 2), Point(1, 2), Point(2, 2), Point(3, 2), Point(3, 3)]
    );
    assert_eq!(best.path1.len(), 2 * 4 - 1);
    assert_eq!(best.path2.len(), 2 * 4 - 1);
    assert_eq!(best.path1[0], Point(0, 0));
    assert_eq!(best.path2[0], Point(0, 0));
    assert_eq!(best.path1[6], Point(3, 3));
    assert_eq!(best.path2[6], Point(3, 3));
    assert!(walks_down_or_right(&best.path1));
    assert!(walks_down_or_right(&best.path2));
}

#[test]
fn grid_with_a_blocked_cell_in_the_middle() {
    let rows = vec![vec![0, 0, 0, 0], vec![0, -1, 1, 0], vec![1, 0, 0, 0], vec![0, 0, 0, 0]];
    let best = cherry_pickup(rows).unwrap();
    assert_eq!(best.score, 2);
    assert_eq!(
        best.path1,
        vec![Point(0, 0), Point(1, 0), Point(2, 0), Point(3, 0), Point(3, 1), Point(3, 2), Point(3, 3)]
    );
    assert_eq!(
        best.path2,
        vec![Point(0, 0), Point(0, 1), Point(0, 2), Point(1, 2), Point(2, 2), Point(3, 2), Point(3, 3)]
    );
}

#[test]
fn single_cell_grid_is_solved_at_the_start() {
    let best = cherry_pickup(vec![vec![5]]).unwrap();
    assert_eq!(best.score, 0);
    assert_eq!(best.path1, vec![Point(0, 0)]);
    assert_eq!(best.path2, vec![Point(0, 0)]);
}

#[test]
fn two_by_two_grid_sends_the_tokens_apart() {
    let best = cherry_pickup(vec![vec![0, 3], vec![4, 5]]).unwrap();
    assert_eq!(best.score, 12);
    assert_eq!(best.path1, vec![Point(0, 0), Point(1, 0), Point(1, 1)]);
    assert_eq!(best.path2, vec![Point(0, 0), Point(0, 1), Point(1, 1)]);
}

#[test]
fn first_cell_is_not_collected_and_last_cell_once() {
    let best = cherry_pickup(vec![vec![100, 0], vec![0, 7]]).unwrap();
    assert_eq!(best.score, 7);
}

#[test]
fn shared_cells_are_collected_once() {
    let best = cherry_pickup(vec![vec![0, 7], vec![-1, 2]]).unwrap();
    assert_eq!(best.score, 9);
    assert_eq!(best.path1, vec![Point(0, 0), Point(0, 1), Point(1, 1)]);
    assert_eq!(best.path2, vec![Point(0, 0), Point(0, 1), Point(1, 1)]);
}

#[test]
fn ties_go_to_the_last_of_the_best_predecessors() {
    let best = cherry_pickup(vec![vec![0, 0], vec![0, 0]]).unwrap();
    assert_eq!(best.score, 0);
    assert_eq!(best.path1, vec![Point(0, 0), Point(1, 0), Point(1, 1)]);
    assert_eq!(best.path2, vec![Point(0, 0), Point(1, 0), Point(1, 1)]);
}

#[test]
fn three_by_three_grid() {
    let best = cherry_pickup(vec![vec![0, 2, 3], vec![4, -1, 1], vec![1, 6, 5]]).unwrap();
    assert_eq!(best.score, 22);
    assert_eq!(best.path1, vec![Point(0, 0), Point(1, 0), Point(2, 0), Point(2, 1), Point(2, 2)]);
    assert_eq!(best.path2, vec![Point(0, 0), Point(0, 1), Point(0, 2), Point(1, 2), Point(2, 2)]);
}

#[test]
fn paths_that_cross_the_main_anti_diagonal_stay_connected() {
    let best = cherry_pickup(vec![vec![0, 1, -1], vec![1, 0, -1], vec![1, 1, 1]]).unwrap();
    assert_eq!(best.score, 5);
    assert_eq!(best.path1, vec![Point(0, 0), Point(1, 0), Point(2, 0), Point(2, 1), Point(2, 2)]);
    assert_eq!(best.path2, vec![Point(0, 0), Point(0, 1), Point(1, 1), Point(2, 1), Point(2, 2)]);
    assert!(walks_down_or_right(&best.path1));
    assert!(walks_down_or_right(&best.path2));
}

#[test]
fn last_cell_without_open_neighbours_is_dead() {
    let best = cherry_pickup(vec![vec![0, -1], vec![-1, 0]]).unwrap();
    assert_eq!(best.score, -1);
    assert_eq!(best.path1, vec![]);
    assert_eq!(best.path2, vec![]);
}

#[test]
fn blocked_grid_leaves_incomplete_paths() {
    let best = cherry_pickup(vec![vec![0, 1, -1], vec![1, -1, 1], vec![-1, 1, 0]]).unwrap();
    assert_eq!(best.score, -1);
    assert_eq!(best.path1, vec![Point(2, 2)]);
    assert_eq!(best.path2, vec![Point(2, 2)]);
    assert!(best.path1.len() < 2 * 3 - 1);
    assert!(best.path2.len() < 2 * 3 - 1);
}

#[test]
fn walled_in_first_cell_leaves_incomplete_paths() {
    let rows = vec![vec![0, -1, 9, 9], vec![-1, 9, 9, 9], vec![9, 9, 9, 9], vec![9, 9, 9, 0]];
    let best = cherry_pickup(rows).unwrap();
    assert_eq!(best.score, 53);
    assert_eq!(best.path1, vec![Point(3, 0), Point(3, 1), Point(3, 2), Point(3, 3)]);
    assert_eq!(best.path2, vec![Point(2, 1), Point(2, 2), Point(2, 3), Point(3, 3)]);
    assert!(best.path1.len() < 2 * 4 - 1);
}

#[test]
fn entry_behind_a_dead_pair_keeps_its_short_paths() {
    let rows = vec![vec![0, 0, 0, 0], vec![-1, -1, 0, 0], vec![9, 9, 0, 0], vec![0, 0, 0, 0]];
    let best = cherry_pickup(rows).unwrap();
    assert_eq!(best.score, 8);
    assert_eq!(best.path1, vec![Point(3, 0), Point(3, 1), Point(3, 2), Point(3, 3)]);
    assert_eq!(best.path2, vec![Point(2, 1), Point(3, 1), Point(3, 2), Point(3, 3)]);
}

#[test]
fn solving_twice_gives_the_same_answer() {
    let rows = vec![vec![0, 1, 1, 0], vec![0, 0, 0, 0], vec![1, 0, 0, 0], vec![0, 1, 0, 0]];
    let first = cherry_pickup(rows.clone()).unwrap();
    let second = cherry_pickup(rows.clone()).unwrap();
    assert_eq!(first.score, second.score);
    assert_eq!(first.path1, second.path1);
    assert_eq!(first.path2, second.path2);
    let grid = Grid::new(rows).unwrap();
    let third = solve(&grid).unwrap();
    let fourth = solve(&grid).unwrap();
    assert_eq!(third.score, first.score);
    assert_eq!(third.path1, first.path1);
    assert_eq!(third.path2, first.path2);
    assert_eq!(fourth.score, third.score);
    assert_eq!(fourth.path1, third.path1);
    assert_eq!(fourth.path2, third.path2);
}

#[test]
fn malformed_matrices_are_reported() {
    assert_eq!(cherry_pickup(vec![]).unwrap_err(), SolveError::Shape(ShapeError::Empty));
    assert_eq!(
        cherry_pickup(vec![vec![0, 1], vec![2]]).unwrap_err(),
        SolveError::Shape(ShapeError::Ragged)
    );
    assert_eq!(
        cherry_pickup(vec![vec![0, 1, 2], vec![3, 4, 5]]).unwrap_err(),
        SolveError::Shape(ShapeError::NotSquare)
    );
}

#[test]
fn scores_beyond_the_range_are_reported() {
    let rows = vec![vec![0, i32::MAX], vec![i32::MAX, 1]];
    assert_eq!(cherry_pickup(rows).unwrap_err(), SolveError::ScoreOverflow);
    let rows = vec![vec![0, i32::MAX], vec![0, 1]];
    assert_eq!(cherry_pickup(rows).unwrap_err(), SolveError::ScoreOverflow);
    let rows = vec![vec![0, -1, 0], vec![-1, -1, 0], vec![0, 0, i32::MIN]];
    assert_eq!(cherry_pickup(rows).unwrap_err(), SolveError::ScoreOverflow);
    let grid = Grid::new(vec![vec![0, i32::MAX], vec![i32::MAX, 1]]).unwrap();
    assert!(solve(&grid).is_none());
}

#[test]
fn scores_at_the_end_of_the_range_are_kept() {
    let rows = vec![vec![0, i32::MAX - 1], vec![-1, 1]];
    let best = cherry_pickup(rows).unwrap();
    assert_eq!(best.score, i32::MAX);
    let rows = vec![vec![0, 0], vec![-1, i32::MIN]];
    let best = cherry_pickup(rows).unwrap();
    assert_eq!(best.score, i32::MIN);
}
