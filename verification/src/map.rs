use vstd::prelude::*;

pub mod grid;

verus! {

/// # TitleCoords
/// Helper structure to store the location of a title in the grid space (x, y).
///
/// The coordinate system puts (0, 0) in the top-left corner, with x growing
/// to the right and y growing downwards.
#[derive(Debug, Clone, Copy, Eq, PartialEq, Hash, Structural)]
pub struct TitleCoords {
    pub x: usize,
    pub y: usize,
}

impl TitleCoords {
    /// Manhattan distance between two coordinates:
    /// `|self.x - other.x| + |self.y - other.y|`.
    pub open spec fn manhattan(self, other: TitleCoords) -> int {
        vstd::math::abs(self.x as int - other.x as int) as int + vstd::math::abs(
            self.y as int - other.y as int,
        ) as int
    }
}

/// # Title
/// Title type: the state of one cell of the grid.
#[derive(Debug, Clone, Copy, Eq, PartialEq, Structural)]
pub enum Title {
    Normal { was_visited: bool },
    Start,
    End,
    Obstacle,
    Path,
    Process,
}

} // verus!
