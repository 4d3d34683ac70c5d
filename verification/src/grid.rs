//! Grid coordinates, the fixed catalogue of displacements, and the stage budget.

use vstd::prelude::*;

verus! {

/// Number of displacements in the catalogue.
pub const ACTION_COUNT: usize = 153;

/// Largest distance, in grid units, that one displacement covers along either axis.
pub const REACH: usize = 8;

/// Number of vertical offsets (`-REACH ..= REACH`) listed for each horizontal offset.
pub const SPAN: usize = 17;

/// A point of the square grid. It lies in the grid of resolution `n` when both
/// coordinates are at most `n`.
#[derive(Clone, Copy, Debug, PartialEq, Eq, Structural)]
pub struct GridPoint {
    pub x: usize,
    pub y: usize,
}

/// A displacement applied to a grid point in one stage.
#[derive(Clone, Copy, Debug, PartialEq, Eq, Structural)]
pub struct Displacement {
    pub dx: u8,
    pub dy: i8,
}

/// The displacement with ordinal `index`: the catalogue lists every pair
/// `(dx, dy)` with `0 <= dx <= REACH` and `-REACH <= dy <= REACH`, by `dx`
/// ascending and, for equal `dx`, by `dy` ascending.
pub open spec fn action_at(index: int) -> Displacement {
    Displacement { dx: (index / SPAN as int) as u8, dy: (index % SPAN as int - REACH) as i8 }
}

/// The ordinal under which the catalogue lists the pair `(dx, dy)`.
pub open spec fn ordinal_of(dx: int, dy: int) -> int {
    dx * SPAN + dy + REACH
}

/// Whether the displacement with ordinal `index` keeps `p` inside the grid of
/// resolution `n`.
pub open spec fn admissible(n: int, p: GridPoint, index: int) -> bool {
    &&& 0 <= index < ACTION_COUNT
    &&& 0 <= p.x + action_at(index).dx <= n
    &&& 0 <= p.y + action_at(index).dy <= n
}

/// Number of stages budgeted for a grid of resolution `n`.
pub open spec fn horizon_for(n: int) -> int {
    if n >= 1000 {
        n / 5
    } else if n >= 500 {
        n / 4
    } else if n >= 50 {
        n / 3
    } else {
        n / 2
    }
}

impl GridPoint {
    /// Whether the point lies in the grid of resolution `n`.
    pub open spec fn within(self, n: int) -> bool {
        self.x <= n && self.y <= n
    }

    /// The point reached from `self` by `d`.
    pub open spec fn shifted(self, d: Displacement) -> GridPoint {
        GridPoint { x: (self.x + d.dx) as usize, y: (self.y + d.dy) as usize }
    }

    /// The point reached from `self` by `d`, for a move that neither passes
    /// below zero nor beyond what a coordinate can hold.
    pub fn displaced(self, d: Displacement) -> (next: GridPoint)
        requires
            self.x + d.dx <= usize::MAX,
            0 <= self.y + d.dy <= usize::MAX,
        ensures
            next == self.shifted(d),
    {
        let x: usize = self.x + d.dx as usize;
        if d.dy >= 0 {
            GridPoint { x, y: self.y + d.dy as usize }
        } else {
            GridPoint { x, y: self.y - (-(d.dy as i16)) as usize }
        }
    }

    /// Applies `d` to `self`, pruning a move that would leave the grid of
    /// resolution `n`.
    pub fn step(self, d: Displacement, n: usize) -> (next: Option<GridPoint>)
        ensures
            next.is_some() <==> (0 <= self.x + d.dx <= n && 0 <= self.y + d.dy <= n),
            next.is_some() ==> next == Some(self.shifted(d)),
    {
        if self.x > n || d.dx as usize > n - self.x {
            return None;
        }
        if d.dy >= 0 {
            if self.y > n || d.dy as usize > n - self.y {
                return None;
            }
        } else {
            let down: usize = (-(d.dy as i16)) as usize;
            if self.y < down || self.y - down > n {
                return None;
            }
        }
        Some(self.displaced(d))
    }
}

/// The displacement listed under `index`.
pub fn action(index: usize) -> (d: Displacement)
    requires
        index < ACTION_COUNT,
    ensures
        d == action_at(index as int),
{
    Displacement { dx: (index / SPAN) as u8, dy: (index % SPAN) as i8 - REACH as i8 }
}

/// The whole catalogue, in order.
pub fn action_set() -> (all: Vec<Displacement>)
    ensures
        all@.len() == ACTION_COUNT,
        forall|i: int| 0 <= i < ACTION_COUNT ==> all@[i] == action_at(i),
{
    let mut all: Vec<Displacement> = Vec::new();
    let mut index: usize = 0;
    while index < ACTION_COUNT
        invariant
            index <= ACTION_COUNT,
            all@.len() == index,
            forall|i: int| 0 <= i < index ==> all@[i] == action_at(i),
        decreases ACTION_COUNT - index,
    {
        all.push(action(index));
        index = index + 1;
    }
    all
}

/// Number of stages budgeted for a grid of resolution `n`.
pub fn time_horizon(n: usize) -> (h: usize)
    ensures
        h == horizon_for(n as int),
{
    if n >= 1000 {
        n / 5
    } else if n >= 500 {
        n / 4
    } else if n >= 50 {
        n / 3
    } else {
        n / 2
    }
}

/// Every listed displacement moves right by at most `REACH` and up or down by
/// at most `REACH`.
pub proof fn lemma_action_bounds(index: int)
    requires
        0 <= index < ACTION_COUNT,
    ensures
        0 <= action_at(index).dx <= REACH,
        -REACH <= action_at(index).dy <= REACH,
        ordinal_of(action_at(index).dx as int, action_at(index).dy as int) == index,
{
}

/// Every pair in range is listed, under the ordinal `ordinal_of` gives.
pub proof fn lemma_action_listed(dx: int, dy: int)
    requires
        0 <= dx <= REACH,
        -REACH <= dy <= REACH,
    ensures
        0 <= ordinal_of(dx, dy) < ACTION_COUNT,
        action_at(ordinal_of(dx, dy)).dx == dx,
        action_at(ordinal_of(dx, dy)).dy == dy,
{
}

/// The catalogue is ordered by `dx` first and by `dy` second.
pub proof fn lemma_action_order(i: int, j: int)
    requires
        0 <= i < ACTION_COUNT,
        0 <= j < ACTION_COUNT,
    ensures
        i < j <==> (action_at(i).dx < action_at(j).dx || (action_at(i).dx == action_at(j).dx
            && action_at(i).dy < action_at(j).dy)),
{
}

} // verus!
