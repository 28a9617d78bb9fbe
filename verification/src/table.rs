use crate::grid::{Point, PointPair};
use crate::score::PairScore;
use std::collections::HashMap;
use vstd::prelude::*;

verus! {

/// The number under which a point is filed: the row in the upper 64 bits,
/// the column in the lower ones.
pub open spec fn point_key(p: Point) -> u128 {
    (p.0 * 0x1_0000_0000_0000_0000 + p.1) as u128
}

/// Different points are filed under different numbers.
pub proof fn lemma_point_key_injective(p: Point, q: Point)
    requires
        point_key(p) == point_key(q),
    ensures
        p == q,
{
}

fn key_of(p: Point) -> (key: u128)
    ensures
        key == point_key(p),
{
    (p.0 as u128) * 0x1_0000_0000_0000_0000u128 + (p.1 as u128)
}

/// The memo of the sweep: what is known of each pair of positions settled
/// so far. An entry is written once and then stays as it is.
pub struct ScoreTable {
    rows: HashMap<u128, HashMap<u128, PairScore>>,
}

impl View for ScoreTable {
    type V = Map<PointPair, PairScore>;

    closed spec fn view(&self) -> Map<PointPair, PairScore> {
        Map::new(
            |pair: PointPair|
                self.rows@.contains_key(point_key(pair.0)) && self.rows@[point_key(
                    pair.0,
                )]@.contains_key(point_key(pair.1)),
            |pair: PointPair| self.rows@[point_key(pair.0)]@[point_key(pair.1)],
        )
    }
}

impl ScoreTable {
    /// A table without entries.
    pub fn new() -> (table: ScoreTable)
        ensures
            table@ == Map::<PointPair, PairScore>::empty(),
    {
        let table = ScoreTable { rows: HashMap::new() };
        assert(table@ =~= Map::<PointPair, PairScore>::empty());
        table
    }

    /// Files `score` under `pair`, which has no entry yet.
    pub fn insert(&mut self, pair: PointPair, score: PairScore)
        requires
            !old(self)@.contains_key(pair),
        ensures
            final(self)@ == old(self)@.insert(pair, score),
    {
        let k1 = key_of(pair.0);
        let k2 = key_of(pair.1);
        let mut row = match self.rows.remove(&k1) {
            Some(row) => row,
            None => HashMap::new(),
        };
        let ghost before = row@;
        row.insert(k2, score);
        self.rows.insert(k1, row);
        proof {
            assert forall|q: PointPair| #[trigger]
                final(self)@.contains_key(q) == old(self)@.insert(pair, score).contains_key(
                    q,
                ) by {
                if point_key(q.0) == k1 {
                    lemma_point_key_injective(q.0, pair.0);
                    if point_key(q.1) == k2 {
                        lemma_point_key_injective(q.1, pair.1);
                    }
                }
            }
            assert forall|q: PointPair| #[trigger]
                final(self)@.contains_key(q) implies final(self)@[q] == old(self)@.insert(
                pair,
                score,
            )[q] by {
                if point_key(q.0) == k1 {
                    lemma_point_key_injective(q.0, pair.0);
                    if point_key(q.1) == k2 {
                        lemma_point_key_injective(q.1, pair.1);
                    }
                }
            }
            assert(final(self)@ =~= old(self)@.insert(pair, score));
        }
    }

    /// The entry filed under `pair`, if there is one.
    pub fn get(&self, pair: PointPair) -> (found: Option<&PairScore>)
        ensures
            match found {
                Some(score) => self@.contains_key(pair) && *score == self@[pair],
                None => !self@.contains_key(pair),
            },
    {
        let k1 = key_of(pair.0);
        let k2 = key_of(pair.1);
        match self.rows.get(&k1) {
            Some(row) => row.get(&k2),
            None => None,
        }
    }
}

} // verus!
