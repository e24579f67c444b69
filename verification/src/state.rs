//! The part of the game state that the movement strategies read.

use vstd::prelude::*;

verus! {

/// A collectible resource lying on the map.
pub struct Resource {
    pub x: u16,
    pub y: u16,
}

/// What the bot knows of the game when it picks its next move.
pub struct GameState {
    /// The bot's own cell.
    pub position: (u16, u16),
    /// Width and height of the map; cells are `0 <= x < width`, `0 <= y < height`.
    pub map_size: (u16, u16),
    /// Cells that cannot be entered.
    pub obstacles: Vec<(u16, u16)>,
    /// Resources currently on the map.
    pub resources: Vec<Resource>,
}

/// A cell of the map, as a pair of mathematical integers.
pub type Cell = (int, int);

impl GameState {
    pub open spec fn start(&self) -> Cell {
        (self.position.0 as int, self.position.1 as int)
    }

    pub open spec fn width(&self) -> int {
        self.map_size.0 as int
    }

    pub open spec fn height(&self) -> int {
        self.map_size.1 as int
    }

    pub open spec fn in_bounds(&self, c: Cell) -> bool {
        0 <= c.0 < self.width() && 0 <= c.1 < self.height()
    }

    pub open spec fn is_obstacle(&self, c: Cell) -> bool {
        exists|i: int|
            0 <= i < self.obstacles@.len() && c == (
                #[trigger] self.obstacles@[i].0 as int,
                self.obstacles@[i].1 as int,
            )
    }

    pub open spec fn is_resource(&self, c: Cell) -> bool {
        exists|i: int|
            0 <= i < self.resources@.len() && c == (
                #[trigger] self.resources@[i].x as int,
                self.resources@[i].y as int,
            )
    }

    /// A cell the bot may stand on.
    pub open spec fn is_open(&self, c: Cell) -> bool {
        self.in_bounds(c) && !self.is_obstacle(c)
    }
}

/// The bot's cell is its position.
pub proof fn lemma_start_is_position(state: &GameState)
    ensures
        state.start().0 == state.position.0,
        state.start().1 == state.position.1,
{
}

/// A cell is open exactly when `0 <= x < map_size.0`, `0 <= y < map_size.1`
/// (the width and the height of the map) and no obstacle stands on it.
pub proof fn lemma_open_cells(state: &GameState, c: Cell)
    ensures
        state.in_bounds(c) <==> (0 <= c.0 < state.map_size.0 && 0 <= c.1 < state.map_size.1),
        state.is_obstacle(c) <==> exists|i: int|
            0 <= i < state.obstacles@.len() && state.obstacles@[i].0 == c.0
                && state.obstacles@[i].1 == c.1,
        state.is_open(c) <==> (0 <= c.0 < state.map_size.0 && 0 <= c.1 < state.map_size.1
            && forall|i: int|
            0 <= i < state.obstacles@.len() ==> !(state.obstacles@[i].0 == c.0
                && state.obstacles@[i].1 == c.1)),
{
}

/// A cell holds a resource exactly when some resource has its coordinates.
pub proof fn lemma_resource_cells(state: &GameState, c: Cell)
    ensures
        state.is_resource(c) <==> exists|i: int|
            0 <= i < state.resources@.len() && state.resources@[i].x == c.0
                && state.resources@[i].y == c.1,
{
}

} // verus!
