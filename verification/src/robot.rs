//! The robot: the one thing through which a search touches a maze.

use crate::maze::{carried, lemma_carried_twice, reliable, Maze, MazeError};
use crate::place::{lemma_step_plus, lemma_walk_push, plus, step, walk_end};
use crate::text_maze::{fault_of, reads, TextMaze};
use crate::{Cell, Direction};
use vstd::prelude::*;
use vstd::string::StringExecFns;

verus! {

/// Every cell that the walk enters, starting at `from`, is no wall.
pub open spec fn clear_walk<M: Maze>(maze: &M, from: (int, int), walk: Seq<Direction>) -> bool {
    forall|k: int|
        0 < k <= walk.len() ==> maze.cell_at(#[trigger] walk_end(from, walk.take(k)))
            != Cell::Wall
}

/// A robot in a maze of any kind. It looks and steps, and does nothing else:
/// a search never touches the maze but through it.
pub struct RobotInternal<M: Maze> {
    env: M,
}

impl<M: Maze> View for RobotInternal<M> {
    type V = M;

    /// The maze the robot is in, as it is now.
    closed spec fn view(&self) -> M {
        self.env
    }
}

impl<M: Maze> RobotInternal<M> {
    /// Puts a robot into the maze.
    pub fn new(maze: M) -> (robot: Self)
        ensures
            robot@ == maze,
    {
        RobotInternal { env: maze }
    }

    /// Looks in the given direction.
    pub fn peek(&self, direction: Direction) -> (cell: Cell)
        ensures
            cell == self@.cell_at(step((0, 0), direction)),
    {
        self.env.look_dir(direction)
    }

    /// Looks in all four directions, in the order north, east, south, west.
    pub fn peek_all(&self) -> (seen: [(Cell, Direction); 4])
        ensures
            forall|rank: int|
                0 <= rank < 4 ==> #[trigger] seen@[rank] == (
                    self@.cell_at(step((0, 0), Direction::ranked(rank))),
                    Direction::ranked(rank),
                ),
    {
        [
            (self.peek(Direction::North), Direction::North),
            (self.peek(Direction::East), Direction::East),
            (self.peek(Direction::South), Direction::South),
            (self.peek(Direction::West), Direction::West),
        ]
    }

    /// Tries to step in the given direction.
    ///
    /// On success the robot stands in the neighbouring cell, which is no
    /// wall; on failure it stands where it stood, and the maze's error, a
    /// `MoveError` of the direction, is returned. In an honest maze the step
    /// fails only where the neighbouring cell is a wall.
    pub fn go(&mut self, direction: Direction) -> (moved: Result<(), MazeError>)
        ensures
            moved is Ok ==> carried(&old(self)@, &final(self)@, step((0, 0), direction)),
            moved is Ok ==> old(self)@.cell_at(step((0, 0), direction)) != Cell::Wall,
            moved is Err ==> carried(&old(self)@, &final(self)@, (0, 0)),
            moved matches Err(error) ==> error.refuses(direction),
            final(self)@.honest() == old(self)@.honest(),
            old(self)@.honest() && old(self)@.cell_at(step((0, 0), direction)) != Cell::Wall
                ==> moved is Ok,
    {
        assert forall|place: (int, int)| plus(place, (0, 0)) == place by {}
        self.env.move_dir(direction)
    }

    /// Walks the given walk, step by step, and stops at the first step that
    /// fails.
    ///
    /// On success the robot stands where the walk ends, and every cell it
    /// has entered is no wall. On failure it stands where the steps before
    /// the failing one have led, and the error is the maze's for that step.
    /// In an honest maze a walk that enters no wall succeeds.
    pub fn follow(&mut self, walk: &Vec<Direction>) -> (moved: Result<(), MazeError>)
        ensures
            moved is Ok ==> carried(&old(self)@, &final(self)@, walk_end((0, 0), walk@)),
            moved is Ok ==> clear_walk(&old(self)@, (0, 0), walk@),
            moved matches Err(error) ==> exists|done: int|
                0 <= done < walk.len() && carried(
                    &old(self)@,
                    &final(self)@,
                    #[trigger] walk_end((0, 0), walk@.take(done)),
                ) && error.refuses(walk@[done]),
            final(self)@.honest() == old(self)@.honest(),
            old(self)@.honest() && clear_walk(&old(self)@, (0, 0), walk@) ==> moved is Ok,
    {
        let ghost start = self@;
        let mut done: usize = 0;
        assert forall|place: (int, int)| plus(place, (0, 0)) == place by {}
        assert(walk@.take(0) =~= Seq::<Direction>::empty());
        while done < walk.len()
            invariant
                done <= walk.len(),
                carried(&start, &self@, walk_end((0, 0), walk@.take(done as int))),
                clear_walk(&start, (0, 0), walk@.take(done as int)),
                self@.honest() == start.honest(),
                start == old(self)@,
            decreases walk.len() - done,
        {
            let direction = walk[done];
            let ghost here = walk_end((0, 0), walk@.take(done as int));
            let ghost before = self@;
            proof {
                assert(walk@.take(done + 1) =~= walk@.take(done as int).push(direction));
                lemma_walk_push((0, 0), walk@.take(done as int), direction);
                lemma_step_plus(here, (0, 0), direction);
                assert(before.cell_at(step((0, 0), direction)) == start.cell_at(
                    plus(step((0, 0), direction), here),
                ));
            }
            match self.go(direction) {
                Ok(()) => {
                    proof {
                        lemma_carried_twice(
                            &start,
                            &before,
                            &self@,
                            here,
                            step((0, 0), direction),
                        );
                        assert(plus(here, step((0, 0), direction)) == step(here, direction));
                        let longer = walk@.take(done + 1);
                        assert forall|k: int| 0 < k <= longer.len() implies start.cell_at(
                            #[trigger] walk_end((0, 0), longer.take(k)),
                        ) != Cell::Wall by {
                            if k <= done {
                                assert(longer.take(k) =~= walk@.take(done as int).take(k));
                            } else {
                                assert(longer.take(k) =~= longer);
                            }
                        }
                    }
                },
                Err(error) => {
                    proof {
                        lemma_carried_twice(&start, &before, &self@, here, (0, 0));
                        assert(plus(here, (0, 0)) == here);
                        if start.honest() && clear_walk(&start, (0, 0), walk@) {
                            assert(before.cell_at(step((0, 0), direction)) == start.cell_at(
                                walk_end((0, 0), walk@.take(done + 1)),
                            ));
                            assert(false);
                        }
                    }
                    return Err(error);
                },
            }
            done += 1;
        }
        assert(walk@.take(done as int) =~= walk@);
        Ok(())
    }
}

/// A robot in a maze given as text.
pub struct Robot {
    internal: RobotInternal<TextMaze>,
}

impl View for Robot {
    type V = TextMaze;

    /// The maze the robot is in, as it is now.
    closed spec fn view(&self) -> TextMaze {
        self.internal@
    }
}

impl Robot {
    /// Reads a maze from its text and puts a robot where the text says.
    ///
    /// Fails, with the error of `TextMaze::try_from`, on every text that is
    /// no maze, and on no other.
    pub fn try_from(value: &str) -> (made: Result<Robot, MazeError>)
        ensures
            made is Ok <==> fault_of(value@) is None,
            made matches Ok(robot) ==> reads(&robot@, value@) && reliable(&robot@)
                && robot@.cell_at((0, 0)) == Cell::Open,
            made matches Err(error) ==> {
                &&& error matches MazeError::CreationError(message)
                &&& Some(message@) == fault_of(value@)
            },
    {
        match TextMaze::try_from(value) {
            Ok(maze) => Ok(Robot { internal: RobotInternal::new(maze) }),
            Err(error) => Err(error),
        }
    }

    /// Takes the robot for a search, which works on mazes of any kind.
    pub fn into_internal(self) -> (internal: RobotInternal<TextMaze>)
        ensures
            internal@ == self@,
    {
        self.internal
    }

    /// Looks in the given direction.
    pub fn peek(&self, direction: Direction) -> (cell: Cell)
        ensures
            cell == self@.cell_at(step((0, 0), direction)),
    {
        self.internal.peek(direction)
    }

    /// Looks in all four directions, in the order north, east, south, west.
    pub fn peek_all(&self) -> (seen: [(Cell, Direction); 4])
        ensures
            forall|rank: int|
                0 <= rank < 4 ==> #[trigger] seen@[rank] == (
                    self@.cell_at(step((0, 0), Direction::ranked(rank))),
                    Direction::ranked(rank),
                ),
    {
        self.internal.peek_all()
    }

    /// Tries to step in the given direction: into the neighbouring cell
    /// unless that is a wall, in which case the robot stays and the error
    /// shows the maze.
    pub fn go(&mut self, direction: Direction) -> (moved: Result<(), MazeError>)
        ensures
            moved is Ok <==> old(self)@.cell_at(step((0, 0), direction)) != Cell::Wall,
            moved is Ok ==> carried(&old(self)@, &final(self)@, step((0, 0), direction)),
            moved is Err ==> carried(&old(self)@, &final(self)@, (0, 0)),
            moved matches Err(error) ==> {
                &&& error matches MazeError::MoveError(wanted, state)
                &&& wanted == direction
                &&& state@ == old(self)@.drawing()
            },
            reliable(&final(self)@),
    {
        proof {
            use_type_invariant(&self.internal.env);
            self.internal.env.lemma_sound();
            assert forall|place: (int, int)| plus(place, (0, 0)) == place by {}
        }
        let moved = self.internal.env.move_dir(direction);
        proof {
            use_type_invariant(&self.internal.env);
            self.internal.env.lemma_sound();
        }
        moved
    }

    /// Draws the robot's state: a heading, then the maze with an `X` for the
    /// robot.
    pub fn to_string(&self) -> (text: String)
        ensures
            text@ == "Robot state:\n"@ + self@.drawing(),
    {
        let mut text = String::from_str("Robot state:\n");
        let maze = self.internal.env.to_string();
        text.append(maze.as_str());
        text
    }
}

} // verus!
