//! The wall layout of a level: a square grid of cells, each open or walled.

use crate::math::Vec2i;
use vstd::array::array_fill_for_copy_types;
use vstd::prelude::*;

verus! {

/// Cells along each side of the level.
pub const LEVEL_SIZE: usize = 32;

/// Cells of the level in all.
pub const LEVEL_CELLS: usize = 1024;

/// The grid, row after row.
pub struct Level {
    pub wall_layout: [bool; 1024],
}

/// True where both coordinates name a cell of the level.
pub open spec fn spec_in_bounds(pos: Vec2i) -> bool {
    0 <= pos.x < LEVEL_SIZE && 0 <= pos.y < LEVEL_SIZE
}

/// Where a cell stands in the layout.
pub open spec fn cell_index(pos: Vec2i) -> int {
    pos.x + pos.y * LEVEL_SIZE
}

impl Level {
    /// A level without walls.
    pub fn new() -> (level: Level)
        ensures
            forall|i: int| 0 <= i < LEVEL_CELLS ==> !level.wall_layout@[i],
    {
        Level { wall_layout: array_fill_for_copy_types(false) }
    }

    pub fn in_bounds(pos: Vec2i) -> (r: bool)
        ensures
            r == spec_in_bounds(pos),
    {
        pos.x >= 0 && pos.x < 32 && pos.y >= 0 && pos.y < 32
    }

    /// Sets a cell of the level; a position outside the level is ignored.
    pub fn set_wall_cell(&mut self, pos: Vec2i, value: bool)
        ensures
            final(self).wall_layout@ == if spec_in_bounds(pos) {
                old(self).wall_layout@.update(cell_index(pos), value)
            } else {
                old(self).wall_layout@
            },
    {
        if !Level::in_bounds(pos) {
            return ;
        }
        let idx: i32 = pos.x + pos.y * 32;
        self.wall_layout[idx as usize] = value;
    }

    /// Reads a cell of the level; outside the level nothing is walled.
    pub fn get_wall_cell(&self, pos: Vec2i) -> (r: bool)
        ensures
            r == (spec_in_bounds(pos) && self.wall_layout@[cell_index(pos)]),
    {
        if !Level::in_bounds(pos) {
            return false;
        }
        let idx: i32 = pos.x + pos.y * 32;
        self.wall_layout[idx as usize]
    }
}

/// Distinct cells of the level stand at distinct places of the layout, so
/// setting one never changes what is read from another.
pub proof fn lemma_cells_apart(a: Vec2i, b: Vec2i)
    requires
        spec_in_bounds(a),
        spec_in_bounds(b),
    ensures
        0 <= cell_index(a) < LEVEL_CELLS,
        cell_index(a) == cell_index(b) <==> a == b,
{
}

} // verus!
