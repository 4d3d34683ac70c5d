//! The transition times of a grid, tabulated per grid point and displacement.
//!
//! Times are whole ticks of a unit the caller chooses. A transition that has
//! no finite time (it would climb above the release height, or it would be
//! travelled at zero speed) has no entry.

use crate::dense::{
    flat_index, lemma_flat_index_in_range, lemma_flat_index_injective, offset, volume,
};
use crate::grid::{GridPoint, ACTION_COUNT};
use vstd::prelude::*;

verus! {

/// The grid point and displacement ordinal pairs of a table over the grid of
/// resolution `n`.
pub open spec fn transition_keys(n: int) -> Set<(GridPoint, int)> {
    Set::new(|key: (GridPoint, int)| key.0.within(n) && 0 <= key.1 < ACTION_COUNT)
}

/// A table of `(n + 1) * (n + 1) * ACTION_COUNT` transition times. Its view
/// maps each grid point and displacement ordinal to the time of taking that
/// displacement from that point, `None` standing for a transition that has no
/// finite time.
pub struct CostTable {
    n: usize,
    times: Vec<Option<u32>>,
}

impl View for CostTable {
    type V = Map<(GridPoint, int), Option<u32>>;

    closed spec fn view(&self) -> Map<(GridPoint, int), Option<u32>> {
        Map::new(
            |key: (GridPoint, int)| transition_keys(self.n as int).contains(key),
            |key: (GridPoint, int)|
                self.times@[flat_index(
                    self.n + 1,
                    ACTION_COUNT as int,
                    key.0.x as int,
                    key.0.y as int,
                    key.1,
                )],
        )
    }
}

impl CostTable {
    /// The grid resolution the table was made for.
    pub closed spec fn spec_resolution(&self) -> usize {
        self.n
    }

    /// The table stores exactly one entry per grid point and displacement.
    pub closed spec fn wf(&self) -> bool {
        self.times.len() == (self.n + 1) * (self.n + 1) * ACTION_COUNT
    }

    /// Whether a table over the grid of resolution `n` can be addressed by a
    /// `usize`.
    pub open spec fn fits(n: int) -> bool {
        (n + 1) * (n + 1) * ACTION_COUNT <= usize::MAX
    }

    /// The view is defined on the grid point and displacement pairs of the
    /// table, and a well-formed table can be addressed.
    pub proof fn lemma_keys(&self)
        ensures
            self@.dom() == transition_keys(self.resolution() as int),
            self.wf() ==> Self::fits(self.resolution() as int),
    {
        assert(self@.dom() =~= transition_keys(self.n as int));
    }

    /// A table in which no transition has a finite time.
    pub fn new(n: usize) -> (table: CostTable)
        requires
            Self::fits(n as int),
        ensures
            table.wf(),
            table.resolution() == n,
            table@.dom() == transition_keys(n as int),
            forall|key: (GridPoint, int)| #[trigger]
                table@.dom().contains(key) ==> table@[key].is_none(),
    {
        proof {
            lemma_fits_side(n as int);
        }
        let side: usize = n + 1;
        let total: usize = side * side * ACTION_COUNT;
        let mut times: Vec<Option<u32>> = Vec::new();
        let mut filled: usize = 0;
        while filled < total
            invariant
                filled <= total,
                times@.len() == filled,
                forall|i: int| 0 <= i < filled ==> times@[i].is_none(),
            decreases total - filled,
        {
            times.push(None);
            filled = filled + 1;
        }
        let table = CostTable { n, times };
        proof {
            table.lemma_keys();
            assert forall|key: (GridPoint, int)| #[trigger]
                table@.dom().contains(key) implies table@[key].is_none() by {
                lemma_flat_index_in_range(
                    n + 1,
                    n + 1,
                    ACTION_COUNT as int,
                    key.0.x as int,
                    key.0.y as int,
                    key.1,
                );
            }
        }
        table
    }

    /// A table in which no transition has a finite time, or `None` when a
    /// table over the grid of resolution `n` cannot be addressed.
    pub fn try_new(n: usize) -> (made: Option<CostTable>)
        ensures
            made.is_some() <==> Self::fits(n as int),
            made.is_some() ==> {
                let table = made.unwrap();
                &&& table.wf()
                &&& table.resolution() == n
                &&& table@.dom() == transition_keys(n as int)
                &&& forall|key: (GridPoint, int)| #[trigger]
                    table@.dom().contains(key) ==> table@[key].is_none()
            },
    {
        if n == usize::MAX {
            assert((n + 1) * (n + 1) * 153 > usize::MAX) by (nonlinear_arith)
                requires
                    n + 1 > usize::MAX,
                    usize::MAX > 0,
            ;
            return None;
        }
        match volume(n + 1, n + 1, ACTION_COUNT) {
            Some(_) => Some(Self::new(n)),
            None => None,
        }
    }

    /// The grid resolution the table was made for.
    #[verifier::when_used_as_spec(spec_resolution)]
    pub fn resolution(&self) -> (n: usize)
        ensures
            n == self.resolution(),
    {
        self.n
    }

    /// The time of taking the displacement with ordinal `action` from `p`.
    pub fn get(&self, p: GridPoint, action: usize) -> (time: Option<u32>)
        requires
            self.wf(),
            p.within(self.resolution() as int),
            action < ACTION_COUNT,
        ensures
            time == self@[(p, action as int)],
    {
        proof {
            self.lemma_keys();
            lemma_fits_side(self.n as int);
        }
        let side: usize = self.n + 1;
        let at: usize = offset(side, side, ACTION_COUNT, p.x, p.y, action);
        self.times[at]
    }

    /// Records `time` for taking the displacement with ordinal `action` from
    /// `p`, leaving every other entry as it was.
    pub fn set(&mut self, p: GridPoint, action: usize, time: Option<u32>)
        requires
            old(self).wf(),
            p.within(old(self).resolution() as int),
            action < ACTION_COUNT,
        ensures
            final(self).wf(),
            final(self).resolution() == old(self).resolution(),
            final(self)@ == old(self)@.insert((p, action as int), time),
    {
        proof {
            self.lemma_keys();
            lemma_fits_side(self.n as int);
        }
        let side: usize = self.n + 1;
        let at: usize = offset(side, side, ACTION_COUNT, p.x, p.y, action);
        self.times.set(at, time);
        proof {
            let before = old(self)@.insert((p, action as int), time);
            assert forall|key: (GridPoint, int)| #[trigger]
                self@.dom().contains(key) implies self@[key] == before[key] by {
                lemma_flat_index_in_range(
                    side as int,
                    side as int,
                    ACTION_COUNT as int,
                    key.0.x as int,
                    key.0.y as int,
                    key.1,
                );
                if key != (p, action as int) {
                    if flat_index(
                        side as int,
                        ACTION_COUNT as int,
                        key.0.x as int,
                        key.0.y as int,
                        key.1,
                    ) == at {
                        lemma_flat_index_injective(
                            side as int,
                            ACTION_COUNT as int,
                            key.0.x as int,
                            key.0.y as int,
                            key.1,
                            p.x as int,
                            p.y as int,
                            action as int,
                        );
                    }
                }
            }
            assert(self@ =~= before);
        }
    }
}

/// A table that can be addressed has a side that fits in a `usize`, and so
/// has each partial product of its size.
pub proof fn lemma_fits_side(n: int)
    requires
        0 <= n,
        CostTable::fits(n),
    ensures
        n + 1 <= usize::MAX,
        (n + 1) * (n + 1) <= usize::MAX,
        (n + 1) * (n + 1) * ACTION_COUNT <= usize::MAX,
{
    assert((n + 1) * (n + 1) >= n + 1) by (nonlinear_arith)
        requires
            0 <= n,
    ;
    assert((n + 1) * (n + 1) * 153 >= (n + 1) * (n + 1)) by (nonlinear_arith)
        requires
            0 <= n,
    ;
}

} // verus!
