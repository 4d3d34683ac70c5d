//! The dense table of time-to-go values and chosen displacements, one cell per
//! stage and grid point.

use crate::dense::{
    flat_index, lemma_flat_index_in_range, lemma_flat_index_injective, offset, volume,
};
use crate::grid::GridPoint;
use vstd::prelude::*;

verus! {

/// What the table records for one stage and grid point.
#[derive(Clone, Copy, Debug, PartialEq, Eq, Structural)]
pub enum Cell {
    /// No displacement leads to the goal within the remaining stages: the
    /// time-to-go is infinite.
    Unreached,
    /// The goal itself, at the last stage: the time-to-go is zero.
    Terminal,
    /// The goal is reached in `value` ticks by taking the displacement with
    /// ordinal `action` first.
    Reachable { value: u64, action: u8 },
}

impl Cell {
    /// The time-to-go of the cell, `None` standing for infinity.
    pub open spec fn time(self) -> Option<int> {
        match self {
            Cell::Unreached => None,
            Cell::Terminal => Some(0),
            Cell::Reachable { value, action } => Some(value as int),
        }
    }

    /// The ordinal of the displacement chosen in the cell, if one was chosen.
    pub open spec fn choice(self) -> Option<int> {
        match self {
            Cell::Reachable { value, action } => Some(action as int),
            _ => None,
        }
    }

    /// The time-to-go of the cell, `None` standing for infinity.
    pub fn value(&self) -> (t: Option<u64>)
        ensures
            t.is_some() <==> self.time().is_some(),
            t.is_some() ==> self.time() == Some(t.unwrap() as int),
    {
        match self {
            Cell::Unreached => None,
            Cell::Terminal => Some(0),
            Cell::Reachable { value, action } => Some(*value),
        }
    }

    /// The ordinal of the displacement chosen in the cell, if one was chosen.
    pub fn action(&self) -> (a: Option<u8>)
        ensures
            a.is_some() <==> self.choice().is_some(),
            a.is_some() ==> self.choice() == Some(a.unwrap() as int),
    {
        match self {
            Cell::Reachable { value, action } => Some(*action),
            _ => None,
        }
    }
}

/// The stage and grid point pairs of a table with stages `0 ..= horizon` over
/// the grid of resolution `n`.
pub open spec fn stage_keys(n: int, horizon: int) -> Set<(int, GridPoint)> {
    Set::new(|key: (int, GridPoint)| 0 <= key.0 <= horizon && key.1.within(n))
}

/// A table of `(horizon + 1) * (n + 1) * (n + 1)` cells. Its view maps each
/// stage and grid point to the cell stored for them.
pub struct ValueTable {
    n: usize,
    horizon: usize,
    cells: Vec<Cell>,
}

impl View for ValueTable {
    type V = Map<(int, GridPoint), Cell>;

    closed spec fn view(&self) -> Map<(int, GridPoint), Cell> {
        Map::new(
            |key: (int, GridPoint)| stage_keys(self.n as int, self.horizon as int).contains(key),
            |key: (int, GridPoint)|
                self.cells@[flat_index(
                    self.n + 1,
                    self.n + 1,
                    key.0,
                    key.1.x as int,
                    key.1.y as int,
                )],
        )
    }
}

impl ValueTable {
    /// The grid resolution the table was made for.
    pub closed spec fn spec_resolution(&self) -> usize {
        self.n
    }

    /// The last stage of the table.
    pub closed spec fn spec_horizon(&self) -> usize {
        self.horizon
    }

    /// The table stores exactly one cell per stage and grid point.
    pub closed spec fn wf(&self) -> bool {
        self.cells.len() == (self.horizon + 1) * (self.n + 1) * (self.n + 1)
    }

    /// Whether a table for `horizon + 1` stages over the grid of resolution
    /// `n` can be addressed by a `usize`.
    pub open spec fn fits(n: int, horizon: int) -> bool {
        (horizon + 1) * (n + 1) * (n + 1) <= usize::MAX
    }

    /// The view is defined on the stage and grid point pairs of the table, and
    /// a well-formed table can be addressed.
    pub proof fn lemma_keys(&self)
        ensures
            self@.dom() == stage_keys(self.resolution() as int, self.horizon() as int),
            self.wf() ==> Self::fits(self.resolution() as int, self.horizon() as int),
    {
        assert(self@.dom() =~= stage_keys(self.n as int, self.horizon as int));
    }

    /// A table with every cell `Unreached`.
    pub fn new(n: usize, horizon: usize) -> (table: ValueTable)
        requires
            Self::fits(n as int, horizon as int),
        ensures
            table.wf(),
            table.resolution() == n,
            table.horizon() == horizon,
            table@.dom() == stage_keys(n as int, horizon as int),
            forall|key: (int, GridPoint)| #[trigger]
                table@.dom().contains(key) ==> table@[key] == Cell::Unreached,
    {
        proof {
            lemma_fits_sides(n as int, horizon as int);
        }
        let side: usize = n + 1;
        let total: usize = (horizon + 1) * side * side;
        let mut cells: Vec<Cell> = Vec::new();
        let mut filled: usize = 0;
        while filled < total
            invariant
                filled <= total,
                cells@.len() == filled,
                forall|i: int| 0 <= i < filled ==> cells@[i] == Cell::Unreached,
            decreases total - filled,
        {
            cells.push(Cell::Unreached);
            filled = filled + 1;
        }
        let table = ValueTable { n, horizon, cells };
        proof {
            table.lemma_keys();
            assert forall|key: (int, GridPoint)| #[trigger]
                table@.dom().contains(key) implies table@[key] == Cell::Unreached by {
                lemma_flat_index_in_range(
                    horizon + 1,
                    n + 1,
                    n + 1,
                    key.0,
                    key.1.x as int,
                    key.1.y as int,
                );
            }
        }
        table
    }

    /// A table with every cell `Unreached`, or `None` when a table for
    /// `horizon + 1` stages over the grid of resolution `n` cannot be
    /// addressed.
    pub fn try_new(n: usize, horizon: usize) -> (made: Option<ValueTable>)
        ensures
            made.is_some() <==> Self::fits(n as int, horizon as int),
            made.is_some() ==> {
                let table = made.unwrap();
                &&& table.wf()
                &&& table.resolution() == n
                &&& table.horizon() == horizon
                &&& table@.dom() == stage_keys(n as int, horizon as int)
                &&& forall|key: (int, GridPoint)| #[trigger]
                    table@.dom().contains(key) ==> table@[key] == Cell::Unreached
            },
    {
        if n == usize::MAX || horizon == usize::MAX {
            assert((horizon + 1) * (n + 1) * (n + 1) > usize::MAX) by (nonlinear_arith)
                requires
                    n + 1 > usize::MAX || horizon + 1 > usize::MAX,
                    n >= 0,
                    horizon >= 0,
                    usize::MAX > 0,
            ;
            return None;
        }
        match volume(horizon + 1, n + 1, n + 1) {
            Some(_) => Some(Self::new(n, horizon)),
            None => None,
        }
    }

    /// The grid resolution the table was made for.
    #[verifier::when_used_as_spec(spec_resolution)]
    pub fn resolution(&self) -> (n: usize)
        ensures
            n == self.resolution(),
    {
        self.n
    }

    /// The last stage of the table.
    #[verifier::when_used_as_spec(spec_horizon)]
    pub fn horizon(&self) -> (h: usize)
        ensures
            h == self.horizon(),
    {
        self.horizon
    }

    /// The cell stored for `stage` and `p`.
    pub fn get(&self, stage: usize, p: GridPoint) -> (cell: Cell)
        requires
            self.wf(),
            stage <= self.horizon(),
            p.within(self.resolution() as int),
        ensures
            cell == self@[(stage as int, p)],
    {
        proof {
            self.lemma_keys();
            lemma_fits_sides(self.n as int, self.horizon as int);
        }
        let side: usize = self.n + 1;
        let at: usize = offset(self.horizon + 1, side, side, stage, p.x, p.y);
        self.cells[at]
    }

    /// Stores `cell` for `stage` and `p`, leaving every other cell as it was.
    pub fn set(&mut self, stage: usize, p: GridPoint, cell: Cell)
        requires
            old(self).wf(),
            stage <= old(self).horizon(),
            p.within(old(self).resolution() as int),
        ensures
            final(self).wf(),
            final(self).resolution() == old(self).resolution(),
            final(self).horizon() == old(self).horizon(),
            final(self)@ == old(self)@.insert((stage as int, p), cell),
    {
        proof {
            self.lemma_keys();
            lemma_fits_sides(self.n as int, self.horizon as int);
        }
        let side: usize = self.n + 1;
        let at: usize = offset(self.horizon + 1, side, side, stage, p.x, p.y);
        self.cells.set(at, cell);
        proof {
            let before = old(self)@.insert((stage as int, p), cell);
            assert forall|key: (int, GridPoint)| #[trigger]
                self@.dom().contains(key) implies self@[key] == before[key] by {
                lemma_flat_index_in_range(
                    self.horizon + 1,
                    side as int,
                    side as int,
                    key.0,
                    key.1.x as int,
                    key.1.y as int,
                );
                if key != (stage as int, p) {
                    if flat_index(side as int, side as int, key.0, key.1.x as int, key.1.y as int)
                        == at {
                        lemma_flat_index_injective(
                            side as int,
                            side as int,
                            key.0,
                            key.1.x as int,
                            key.1.y as int,
                            stage as int,
                            p.x as int,
                            p.y as int,
                        );
                    }
                }
            }
            assert(self@ =~= before);
        }
    }
}

/// A table that can be addressed has sides and a stage count that fit in a
/// `usize`, and so has each partial product of its size.
pub proof fn lemma_fits_sides(n: int, horizon: int)
    requires
        0 <= n,
        0 <= horizon,
        ValueTable::fits(n, horizon),
    ensures
        n + 1 <= usize::MAX,
        horizon + 1 <= usize::MAX,
        (horizon + 1) * (n + 1) <= usize::MAX,
        (horizon + 1) * (n + 1) * (n + 1) <= usize::MAX,
{
    assert((horizon + 1) * (n + 1) >= n + 1 && (horizon + 1) * (n + 1) >= horizon + 1)
        by (nonlinear_arith)
        requires
            0 <= n,
            0 <= horizon,
    ;
    assert((horizon + 1) * (n + 1) * (n + 1) >= (horizon + 1) * (n + 1)) by (nonlinear_arith)
        requires
            0 <= n,
            0 <= horizon,
    ;
}

} // verus!
