//! A robot that finds the finish of a maze it cannot see.
//!
//! The robot knows nothing of the maze but what it learns by looking at the
//! four cells around it and by stepping from cell to cell. While it explores
//! it draws a chart of the cells it has found, keeps for each of them the
//! step by which it was first reached, and walks over that chart, never
//! through a wall, to whichever cell it wants to look around next.

use vstd::prelude::*;

pub mod bfs;
pub mod cell_graph;
pub mod chart;
pub mod decimal;
pub mod direction;
pub mod explorer;
pub mod frontier;
pub mod fun_tools;
pub mod lang;
pub mod maze;
pub mod navigator;
pub mod parent_map;
pub mod place;
pub mod robot;
pub mod solution;
pub mod text_maze;

pub use crate::maze::{Maze, MazeError};
pub use crate::robot::{Robot, RobotInternal};
pub use crate::solution::{solve, Key};
pub use crate::text_maze::TextMaze;

verus! {

/// One of the four ways out of a cell.
#[derive(Clone, Copy, Debug, PartialEq, Eq, Structural)]
pub enum Direction {
    North,
    East,
    South,
    West,
}

/// The four directions in the order in which the robot looks around a cell:
/// north, east, south, west. Every search in this crate keeps to it, so the
/// same maze is always explored in the same way.
pub const DIR_ARR: [Direction; 4] = [
    Direction::North,
    Direction::East,
    Direction::South,
    Direction::West,
];

impl Direction {
    /// The way back: south for north, west for east.
    pub open spec fn opposite(self) -> Direction {
        match self {
            Direction::North => Direction::South,
            Direction::South => Direction::North,
            Direction::East => Direction::West,
            Direction::West => Direction::East,
        }
    }

    /// The place of this direction in the order of looking: 0 for north,
    /// 1 for east, 2 for south, 3 for west.
    pub open spec fn rank(self) -> int {
        match self {
            Direction::North => 0,
            Direction::East => 1,
            Direction::South => 2,
            Direction::West => 3,
        }
    }

    /// The direction at a place in the order of looking.
    pub open spec fn ranked(rank: int) -> Direction {
        if rank == 0 {
            Direction::North
        } else if rank == 1 {
            Direction::East
        } else if rank == 2 {
            Direction::South
        } else {
            Direction::West
        }
    }

    /// Returns the direction that undoes a step in this one.
    pub fn reverse(&self) -> (back: Self)
        ensures
            back == self.opposite(),
    {
        match self {
            Direction::North => Direction::South,
            Direction::South => Direction::North,
            Direction::East => Direction::West,
            Direction::West => Direction::East,
        }
    }

    /// Returns the place of this direction in the order of looking.
    pub fn index(&self) -> (rank: usize)
        ensures
            rank == self.rank(),
            rank < 4,
    {
        match self {
            Direction::North => 0,
            Direction::East => 1,
            Direction::South => 2,
            Direction::West => 3,
        }
    }

    /// Returns the direction at a place in the order of looking.
    pub fn from_index(rank: usize) -> (direction: Self)
        requires
            rank < 4,
        ensures
            direction == Direction::ranked(rank as int),
            direction.rank() == rank,
    {
        DIR_ARR[rank]
    }

    /// Returns the name of the direction, as it is written in messages.
    pub fn name(&self) -> (name: &'static str)
        ensures
            name@ == self.spelled(),
    {
        match self {
            Direction::North => "North",
            Direction::East => "East",
            Direction::South => "South",
            Direction::West => "West",
        }
    }

    /// The name of the direction as a sequence of characters.
    pub open spec fn spelled(self) -> Seq<char> {
        match self {
            Direction::North => "North"@,
            Direction::East => "East"@,
            Direction::South => "South"@,
            Direction::West => "West"@,
        }
    }
}

/// Turning round twice gives the direction one started with.
pub proof fn lemma_reverse_twice(direction: Direction)
    ensures
        direction.opposite().opposite() == direction,
        direction.opposite() != direction,
{
}

/// What the robot sees when it looks at a cell.
#[derive(Clone, Copy, Debug, PartialEq, Eq, Structural)]
pub enum Cell {
    /// The cell the robot is looking for.
    Finish,
    /// A cell the robot can step into.
    Open,
    /// A cell the robot cannot step into; so is everything outside the maze.
    Wall,
}

impl Cell {
    /// What a character of a maze's text stands for: `F` is the finish, `+`
    /// and the end of a line are walls, everything else is open.
    pub open spec fn of_char(c: char) -> Cell {
        if c == 'F' {
            Cell::Finish
        } else if c == '+' || c == '\n' {
            Cell::Wall
        } else {
            Cell::Open
        }
    }

    /// Reads a character of a maze's text.
    pub fn from_char(c: char) -> (cell: Cell)
        ensures
            cell == Cell::of_char(c),
    {
        if c == 'F' {
            Cell::Finish
        } else if c == '+' || c == '\n' {
            Cell::Wall
        } else {
            Cell::Open
        }
    }
}

impl vstd::std_specs::convert::FromSpecImpl<&char> for Cell {
    open spec fn obeys_from_spec() -> bool {
        true
    }

    /// What the character stands for in a maze's text.
    open spec fn from_spec(value: &char) -> Cell {
        Cell::of_char(*value)
    }
}

impl From<&char> for Cell {
    /// Reads a character of a maze's text: `F` is the finish, `+` and the
    /// end of a line are walls, everything else is open.
    fn from(value: &char) -> (cell: Cell) {
        Cell::from_char(*value)
    }
}

} // verus!
