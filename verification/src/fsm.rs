use vstd::prelude::*;

verus! {

/// The phases a mouse-driven setup walks through: place the start, place
/// the goal, launch the simulation, then rest until a reset.
#[derive(Clone, Copy, PartialEq, Eq, Structural, Debug)]
pub enum MouseActionState {
    SetStartPoint,
    SetEndPoint,
    StartSimulation,
    EndSimulation,
}

impl MouseActionState {
    pub fn new() -> (r: Self)
        ensures
            r is SetStartPoint,
    {
        Self::SetStartPoint
    }

    pub fn next(self) -> (r: Self)
        ensures
            r == (match self {
                Self::SetStartPoint => Self::SetEndPoint,
                Self::SetEndPoint => Self::StartSimulation,
                Self::StartSimulation => Self::EndSimulation,
                Self::EndSimulation => Self::EndSimulation,
            }),
    {
        match self {
            Self::SetStartPoint => Self::SetEndPoint,
            Self::SetEndPoint => Self::StartSimulation,
            Self::StartSimulation => Self::EndSimulation,
            Self::EndSimulation => Self::EndSimulation,
        }
    }

    pub fn reset(self) -> (r: Self)
        ensures
            r is SetStartPoint,
    {
        Self::SetStartPoint
    }
}

/// The menu cursor over the four algorithm variants, cycling in both
/// directions.
#[derive(Clone, Copy, PartialEq, Eq, Structural, Debug)]
pub enum MenuSelectionState {
    Bfs,
    Dijkstra,
    GreedyBfs,
    AStar,
}

impl MenuSelectionState {
    pub fn new() -> (r: Self)
        ensures
            r is Bfs,
    {
        Self::Bfs
    }

    pub fn next(self) -> (r: Self)
        ensures
            r == (match self {
                Self::Bfs => Self::Dijkstra,
                Self::Dijkstra => Self::GreedyBfs,
                Self::GreedyBfs => Self::AStar,
                Self::AStar => Self::Bfs,
            }),
    {
        match self {
            Self::Bfs => Self::Dijkstra,
            Self::Dijkstra => Self::GreedyBfs,
            Self::GreedyBfs => Self::AStar,
            Self::AStar => Self::Bfs,
        }
    }

    pub fn prev(self) -> (r: Self)
        ensures
            r == (match self {
                Self::Bfs => Self::AStar,
                Self::AStar => Self::GreedyBfs,
                Self::GreedyBfs => Self::Dijkstra,
                Self::Dijkstra => Self::Bfs,
            }),
    {
        match self {
            Self::Bfs => Self::AStar,
            Self::AStar => Self::GreedyBfs,
            Self::GreedyBfs => Self::Dijkstra,
            Self::Dijkstra => Self::Bfs,
        }
    }

    /// The position of the selected algorithm in the menu order.
    pub fn selected_algorithm_id(&self) -> (r: usize)
        ensures
            r == (match self {
                Self::Bfs => 0usize,
                Self::Dijkstra => 1usize,
                Self::GreedyBfs => 2usize,
                Self::AStar => 3usize,
            }),
    {
        match self {
            Self::Bfs => 0,
            Self::Dijkstra => 1,
            Self::GreedyBfs => 2,
            Self::AStar => 3,
        }
    }

    /// The selection at a menu position, or None outside the menu.
    pub fn from_index(self, id: isize) -> (r: Option<Self>)
        ensures
            r == (match id {
                0isize => Some(Self::Bfs),
                1isize => Some(Self::Dijkstra),
                2isize => Some(Self::GreedyBfs),
                3isize => Some(Self::AStar),
                _ => None::<Self>,
            }),
    {
        match id {
            0 => Some(Self::Bfs),
            1 => Some(Self::Dijkstra),
            2 => Some(Self::GreedyBfs),
            3 => Some(Self::AStar),
            _ => None,
        }
    }

    pub fn reset(self) -> (r: Self)
        ensures
            r is Bfs,
    {
        Self::Bfs
    }
}

} // verus!
