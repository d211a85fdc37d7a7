//! The maze as the robot meets it: something to look at and to step in.

use crate::place::{plus, step};
use crate::{Cell, Direction};
use vstd::prelude::*;
use vstd::string::StringExecFns;

verus! {

/// A maze with a robot in it.
///
/// The robot cannot see the maze. It can look one cell ahead in a direction
/// (`look_dir`) and try to step in a direction (`move_dir`); nothing else is
/// known of the maze.
///
/// In contracts a maze is what it shows from where the robot stands:
/// `cell_at` gives the cell at each place, the robot's own cell being
/// `(0, 0)`. A step carries the robot to a neighbouring cell and leaves the
/// cells where they are, so after it each cell is seen one step further back.
pub trait Maze: Sized {
    /// The cell that lies at `place`, counted from the robot's own cell.
    /// A maze that says nothing else shows walls all around.
    open spec fn cell_at(&self, place: (int, int)) -> Cell {
        Cell::Wall
    }

    /// Whether this maze lets the robot into every cell that is no wall. A
    /// maze that may refuse a step for a reason of its own answers `false`,
    /// and so does one that says nothing else.
    open spec fn honest(&self) -> bool {
        false
    }

    /// Looks in the given direction and tells what kind of cell is there.
    fn look_dir(&self, direction: Direction) -> (cell: Cell)
        ensures
            cell == self.cell_at(step((0, 0), direction)),
    ;

    /// Tries to step in the given direction.
    ///
    /// On success the robot stands in the neighbouring cell, which is no
    /// wall. On failure it stands where it stood, and the error is a
    /// `MoveError` of the direction. An honest maze refuses only a step
    /// into a wall.
    fn move_dir(&mut self, direction: Direction) -> (moved: Result<(), MazeError>)
        ensures
            moved is Ok ==> forall|place: (int, int)| #[trigger]
                final(self).cell_at(place) == old(self).cell_at(
                    plus(place, step((0, 0), direction)),
                ),
            moved is Ok ==> old(self).cell_at(step((0, 0), direction)) != Cell::Wall,
            moved is Err ==> forall|place: (int, int)| #[trigger]
                final(self).cell_at(place) == old(self).cell_at(place),
            moved matches Err(error) ==> error.refuses(direction),
            final(self).honest() == old(self).honest(),
            old(self).honest() && old(self).cell_at(step((0, 0), direction)) != Cell::Wall
                ==> moved is Ok,
    ;
}

/// The maze holds the robot in a cell that is no wall, and lets it into
/// every cell that is no wall.
pub open spec fn reliable<M: Maze>(maze: &M) -> bool {
    maze.honest() && maze.cell_at((0, 0)) != Cell::Wall
}

/// The maze `after` is the maze `before` with the robot carried `by` away:
/// what `after` shows at a place, `before` showed `by` further on. A step
/// that succeeds carries the robot by one cell, one that fails by `(0, 0)`.
pub open spec fn carried<M: Maze>(before: &M, after: &M, by: (int, int)) -> bool {
    forall|place: (int, int)| #[trigger] after.cell_at(place) == before.cell_at(plus(place, by))
}

/// Being carried twice is being carried by the sum.
pub proof fn lemma_carried_twice<M: Maze>(
    first: &M,
    second: &M,
    third: &M,
    by: (int, int),
    then: (int, int),
)
    requires
        carried(first, second, by),
        carried(second, third, then),
    ensures
        carried(first, third, plus(by, then)),
{
    assert forall|place: (int, int)| #[trigger]
        third.cell_at(place) == first.cell_at(plus(place, plus(by, then))) by {
        assert(third.cell_at(place) == second.cell_at(plus(place, then)));
        assert(second.cell_at(plus(place, then)) == first.cell_at(plus(plus(place, then), by)));
        assert(plus(plus(place, then), by) == plus(place, plus(by, then)));
    }
}

/// Looking twice from one cell shows the same thing, also after a walk that
/// has led back to that cell: whatever is seen from a cell is fixed by the
/// maze as it was before the walk.
pub proof fn lemma_same_look<M: Maze>(before: &M, after: &M, direction: Direction)
    requires
        carried(before, after, (0, 0)),
    ensures
        after.cell_at(step((0, 0), direction)) == before.cell_at(step((0, 0), direction)),
{
    assert(plus(step((0, 0), direction), (0, 0)) == step((0, 0), direction));
}

/// Why a maze could not be made from a text, or why the robot could not step.
#[derive(Debug)]
pub enum MazeError {
    /// The text is no maze; the message says why.
    CreationError(String),
    /// The robot could not step in the direction; the text shows the maze
    /// with the robot in it.
    MoveError(Direction, String),
}

impl MazeError {
    /// The error is that of a step in the direction, which the maze has
    /// refused.
    pub open spec fn refuses(&self, direction: Direction) -> bool {
        self matches MazeError::MoveError(wanted, _) && wanted == direction
    }

    /// The error written out.
    pub open spec fn text(&self) -> Seq<char> {
        match self {
            MazeError::CreationError(message) => "MazeError:CreationError: "@ + message@,
            MazeError::MoveError(direction, state) => "MazeError:MoveError: unable to go "@
                + direction.spelled() + " from current location:\n\n"@ + state@ + "\n"@,
        }
    }

    /// Writes the error out.
    pub fn to_string(&self) -> (text: String)
        ensures
            text@ == self.text(),
    {
        match self {
            MazeError::CreationError(message) => {
                let mut text = String::from_str("MazeError:CreationError: ");
                text.append(message.as_str());
                text
            },
            MazeError::MoveError(direction, state) => {
                let mut text = String::from_str("MazeError:MoveError: unable to go ");
                text.append(direction.name());
                text.append(" from current location:\n\n");
                text.append(state.as_str());
                text.append("\n");
                text
            },
        }
    }
}

} // verus!
