//! Hexagonal board model: axial coordinates, cell states, and the board
//! itself. Cells are addressed by axial coordinates `(q, r)` centered at the
//! origin; a point is in bounds when both coordinates have absolute value at
//! most the board radius. In-bounds points are flattened to indices of a
//! square `W x W` array, and that flattening is a bijection between the
//! in-bounds points and the indices `0 .. W * W`.

use vstd::prelude::*;

verus! {

/// Width of the square array backing the board. Must be odd.
pub const BOARD_WIDTH: usize = 7;

/// Board radius: a point `(q, r)` is on the board when `|q| <= BOARD_RADIUS`
/// and `|r| <= BOARD_RADIUS`. Equal to `(BOARD_WIDTH - 1) / 2`.
pub const BOARD_RADIUS: i64 = 3;

/// An axial coordinate pair addressing one hexagonal cell.
#[derive(Clone, Copy, PartialEq, Eq, Structural, Debug)]
pub struct AxialPoint {
    pub q: i64,
    pub r: i64,
}

/// The state of one cell of the board. Every cell starts `Empty`.
#[derive(Clone, Copy, PartialEq, Eq, Structural, Debug)]
pub enum CellState {
    Red,
    Blue,
    Empty,
}

/// Whether `p` lies on the board.
pub open spec fn spec_in_bounds(p: AxialPoint) -> bool {
    -(BOARD_RADIUS as int) <= p.q <= BOARD_RADIUS as int
        && -(BOARD_RADIUS as int) <= p.r <= BOARD_RADIUS as int
}

/// The array index of an in-bounds point: `(q + radius) + (r + radius) * W`.
pub open spec fn spec_flatten(p: AxialPoint) -> int {
    (p.q + BOARD_RADIUS as int) + (p.r + BOARD_RADIUS as int) * (BOARD_WIDTH as int)
}

/// The inverse of `spec_flatten` on `0 .. W * W`.
pub open spec fn spec_unflatten(i: int) -> AxialPoint {
    AxialPoint {
        q: (i % (BOARD_WIDTH as int) - BOARD_RADIUS as int) as i64,
        r: (i / (BOARD_WIDTH as int) - BOARD_RADIUS as int) as i64,
    }
}

/// The authoritative board: one cell state per array index. There is a single
/// copy per server, mutated only by applying validated commands.
pub struct GameState {
    pub grid: Vec<CellState>,
}

impl GameState {
    /// Well-formedness: the backing array has exactly `W * W` cells.
    pub open spec fn wf(self) -> bool {
        self.grid@.len() == BOARD_WIDTH * BOARD_WIDTH
    }

    /// The cell at `p`, as the contracts speak of it.
    pub open spec fn spec_cell(self, p: AxialPoint) -> CellState {
        self.grid@[spec_flatten(p)]
    }

    /// A fresh board with every cell `Empty`.
    pub fn new() -> (game: GameState)
        ensures
            game.wf(),
            forall|i: int| 0 <= i < game.grid@.len() ==> game.grid@[i] == CellState::Empty,
    {
        let mut grid: Vec<CellState> = Vec::new();
        let mut k: usize = 0;
        while k < BOARD_WIDTH * BOARD_WIDTH
            invariant
                k <= BOARD_WIDTH * BOARD_WIDTH,
                grid@.len() == k,
                forall|i: int| 0 <= i < k ==> grid@[i] == CellState::Empty,
            decreases BOARD_WIDTH * BOARD_WIDTH - k,
        {
            grid.push(CellState::Empty);
            k = k + 1;
        }
        GameState { grid }
    }

    /// Whether `point` lies on the board.
    pub fn is_in_bounds(point: &AxialPoint) -> (b: bool)
        ensures
            b == spec_in_bounds(*point),
    {
        point.q >= -BOARD_RADIUS && point.q <= BOARD_RADIUS
            && point.r >= -BOARD_RADIUS && point.r <= BOARD_RADIUS
    }

    /// Maps an in-bounds point to its array index; rejects an out-of-bounds
    /// point without producing an index.
    pub fn flatten_point(point: &AxialPoint) -> (res: Result<usize, ()>)
        ensures
            spec_in_bounds(*point) ==> res == Ok::<usize, ()>(spec_flatten(*point) as usize),
            !spec_in_bounds(*point) ==> res == Err::<usize, ()>(()),
    {
        if GameState::is_in_bounds(point) {
            let q_offset = (point.q + BOARD_RADIUS) as usize;
            let r_offset = (point.r + BOARD_RADIUS) as usize;
            Ok(q_offset + r_offset * BOARD_WIDTH)
        } else {
            Err(())
        }
    }

    /// Reads the cell at `point`; rejects an out-of-bounds point.
    pub fn get(&self, point: &AxialPoint) -> (res: Result<CellState, ()>)
        requires
            self.wf(),
        ensures
            spec_in_bounds(*point) ==> res == Ok::<CellState, ()>(self.spec_cell(*point)),
            !spec_in_bounds(*point) ==> res == Err::<CellState, ()>(()),
    {
        proof {
            if spec_in_bounds(*point) {
                lemma_flatten_in_range(*point);
            }
        }
        let flattened = match GameState::flatten_point(point) {
            Ok(i) => i,
            Err(e) => {
                return Err(e);
            },
        };
        Ok(self.grid[flattened])
    }

    /// Borrows the cell at `point` mutably; rejects an out-of-bounds point
    /// and then leaves the board unchanged.
    pub fn get_mut(&mut self, point: &AxialPoint) -> (res: Result<&mut CellState, ()>)
        requires
            old(self).wf(),
        ensures
            spec_in_bounds(*point) ==> (res matches Ok(cell)
                && *cell == old(self).spec_cell(*point)
                && final(self).grid@ == old(self).grid@.update(
                    spec_flatten(*point),
                    *final(cell),
                )),
            !spec_in_bounds(*point) ==> ((res matches Err(e)) && *final(self) == *old(self)),
    {
        proof {
            if spec_in_bounds(*point) {
                lemma_flatten_in_range(*point);
            }
        }
        let flattened = match GameState::flatten_point(point) {
            Ok(i) => i,
            Err(e) => {
                return Err(e);
            },
        };
        Ok(&mut self.grid[flattened])
    }

    /// Writes `value` to the cell at `point`; rejects an out-of-bounds point
    /// without mutating any cell.
    pub fn set(&mut self, point: &AxialPoint, value: CellState) -> (res: Result<(), ()>)
        requires
            old(self).wf(),
        ensures
            final(self).wf(),
            spec_in_bounds(*point) ==> res == Ok::<(), ()>(())
                && final(self).grid@ == old(self).grid@.update(spec_flatten(*point), value),
            !spec_in_bounds(*point) ==> res == Err::<(), ()>(()) && *final(self) == *old(self),
    {
        proof {
            if spec_in_bounds(*point) {
                lemma_flatten_in_range(*point);
            }
        }
        let flattened = match GameState::flatten_point(point) {
            Ok(i) => i,
            Err(e) => {
                return Err(e);
            },
        };
        self.grid.set(flattened, value);
        Ok(())
    }
}

/// An in-bounds point flattens to an index of the backing array.
pub proof fn lemma_flatten_in_range(p: AxialPoint)
    requires
        spec_in_bounds(p),
    ensures
        0 <= spec_flatten(p) < BOARD_WIDTH * BOARD_WIDTH,
{
}

/// Flattening is injective on in-bounds points: two in-bounds points that
/// share an array index are the same point.
pub proof fn lemma_flatten_injective(p1: AxialPoint, p2: AxialPoint)
    requires
        spec_in_bounds(p1),
        spec_in_bounds(p2),
        spec_flatten(p1) == spec_flatten(p2),
    ensures
        p1 == p2,
{
}

/// Flattening is surjective onto `0 .. W * W`: every index corresponds to
/// exactly one in-bounds point, the one `spec_unflatten` names.
pub proof fn lemma_flatten_surjective(i: int)
    requires
        0 <= i < BOARD_WIDTH * BOARD_WIDTH,
    ensures
        spec_in_bounds(spec_unflatten(i)),
        spec_flatten(spec_unflatten(i)) == i,
{
}

} // verus!
