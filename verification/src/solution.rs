//! Solving a maze given as text.

use crate::decimal::{push_signed, signed};
use crate::explorer::{
    charted_way, direct_way, explore, finish_within_reach, leads_to_finish, reaches_finish,
    traces, Solution, SolveError,
};
use crate::frontier::Order;
use crate::maze::{reliable, Maze, MazeError};
use crate::place::step;
use crate::robot::{clear_walk, Robot};
use crate::text_maze::{fault_of, reads, TextMaze};
use crate::Direction;
use vstd::prelude::*;

verus! {

/// The place of a cell: how many cells east and how many cells north of the
/// cell in which the robot started it lies.
///
/// The numbers are wide enough that no cell a robot can reach and keep in
/// its chart lies outside their range.
#[derive(Debug, Eq, PartialEq, Hash, Copy, Clone, Structural)]
pub struct Key(pub i128, pub i128);

impl View for Key {
    type V = (int, int);

    open spec fn view(&self) -> (int, int) {
        (self.0 as int, self.1 as int)
    }
}

impl Key {
    /// The cell next to this one in the direction has a key: its place lies
    /// in the range of the numbers.
    pub open spec fn has_next(&self, direction: Direction) -> bool {
        let next = step(self@, direction);
        i128::MIN <= next.0 <= i128::MAX && i128::MIN <= next.1 <= i128::MAX
    }

    /// The key written out: its two numbers in decimal, in brackets and with
    /// a comma between them.
    pub open spec fn text(&self) -> Seq<char> {
        seq!['('] + signed(self.0 as int) + seq![','] + signed(self.1 as int) + seq![')']
    }

    /// Writes the key out, as in `(3,-1)`.
    pub fn to_string(&self) -> (text: String)
        ensures
            text@ == self.text(),
    {
        let mut text = String::new();
        text.push('(');
        push_signed(&mut text, self.0);
        text.push(',');
        push_signed(&mut text, self.1);
        text.push(')');
        assert(text@ =~= self.text());
        text
    }

    /// Returns the key of the cell next to this one in the direction: one
    /// further north or south in the second number, one further east or west
    /// in the first.
    pub fn compute_in_dir(&self, direction: &Direction) -> (next: Self)
        requires
            self.has_next(*direction),
        ensures
            next@ == step(self@, *direction),
    {
        match direction {
            Direction::North => Key(self.0, self.1 + 1),
            Direction::South => Key(self.0, self.1 - 1),
            Direction::East => Key(self.0 + 1, self.1),
            Direction::West => Key(self.0 - 1, self.1),
        }
    }
}

/// Two mazes of the same text, with the robot in the same cell, have the
/// finish within reach together or not at all, and the same keys lead to
/// it, with or without detours.
pub proof fn lemma_same_maze(one: &TextMaze, other: &TextMaze, keys: Seq<Key>)
    requires
        one.chars() == other.chars(),
        one.loc() == other.loc(),
        one.width() == other.width(),
    ensures
        finish_within_reach(one) == finish_within_reach(other),
        leads_to_finish(one, keys) == leads_to_finish(other, keys),
        direct_way(one, keys) == direct_way(other, keys),
{
    assert forall|place: (int, int)| one.cell_at(place) == other.cell_at(place) by {}
    assert forall|walk: Seq<Direction>| reaches_finish(one, walk) == reaches_finish(
        other,
        walk,
    ) by {
        assert forall|place: (int, int)| one.cell_at(place) == other.cell_at(place) by {}
        assert(clear_walk(one, (0, 0), walk) == clear_walk(other, (0, 0), walk));
    }
    if finish_within_reach(one) {
        let walk = choose|walk: Seq<Direction>| reaches_finish(one, walk);
        assert(reaches_finish(other, walk));
    }
    if finish_within_reach(other) {
        let walk = choose|walk: Seq<Direction>| reaches_finish(other, walk);
        assert(reaches_finish(one, walk));
    }
    if leads_to_finish(one, keys) {
        let walk = choose|walk: Seq<Direction>|
            reaches_finish(one, walk) && traces(keys, walk);
        assert(reaches_finish(other, walk));
    }
    if leads_to_finish(other, keys) {
        let walk = choose|walk: Seq<Direction>|
            reaches_finish(other, walk) && traces(keys, walk);
        assert(reaches_finish(one, walk));
    }
    assert forall|solution: Solution| #[trigger]
        solution.solves(one) == solution.solves(other) by {
        assert(solution.chart.true_of(one, solution.finish as int)
            == solution.chart.true_of(other, solution.finish as int));
    }
    if charted_way(one, keys) {
        let solution = choose|solution: Solution| #[trigger]
            solution.solves(one) && traces(keys, solution.walk());
        assert(solution.solves(other));
    }
    if charted_way(other, keys) {
        let solution = choose|solution: Solution| #[trigger]
            solution.solves(other) && traces(keys, solution.walk());
        assert(solution.solves(one));
    }
}

/// Searches the maze in depth, from where the robot stands, and returns the
/// keys of the cells on the way to the finish, from `(0, 0)` for the
/// robot's cell to the key of the finish.
///
/// The search succeeds exactly where the robot can walk to a finish; where
/// it cannot, `NoPath` is returned. The keys are those of the way by which
/// the finish was first reached: a way over cells that are no walls, which
/// passes no cell twice and no finish before its end.
pub fn dfs_path(robot: Robot) -> (found: Result<Vec<Key>, SolveError>)
    requires
        reliable(&robot@),
    ensures
        found is Ok <==> finish_within_reach(&robot@),
        found matches Ok(keys) ==> direct_way(&robot@, keys@),
        found matches Err(error) ==> error is NoPath,
{
    let ghost maze = robot@;
    match explore(robot.into_internal(), Order::Lifo) {
        Ok(solution) => {
            let keys = solution.keys();
            proof {
                solution.lemma_direct(&maze, keys@);
            }
            Ok(keys)
        },
        Err(error) => Err(error),
    }
}

/// Solves a maze given as text: reads it, puts a robot at its start and
/// searches in depth for the finish. Returns the keys of the cells on the
/// way, from `(0, 0)` for the start to the key of the finish.
///
/// A text that is no maze is refused with the error of reading it. A maze
/// is solved exactly where its finish is within reach of the start; where
/// it is not, `NoPath` is returned. The keys are those of a way over cells
/// that are no walls, which passes no cell twice and no finish before its
/// end.
pub fn solve(maze: &str) -> (found: Result<Vec<Key>, SolveError>)
    ensures
        fault_of(maze@) is Some ==> {
            &&& found matches Err(SolveError::Creation(MazeError::CreationError(message)))
            &&& Some(message@) == fault_of(maze@)
        },
        forall|robot: TextMaze|
            fault_of(maze@) is None && #[trigger] reads(&robot, maze@) ==> {
                &&& found is Ok <==> finish_within_reach(&robot)
                &&& found matches Ok(keys) ==> direct_way(&robot, keys@)
                &&& found matches Err(error) ==> error is NoPath
            },
{
    let robot = match Robot::try_from(maze) {
        Ok(robot) => robot,
        Err(error) => {
            return Err(SolveError::Creation(error));
        },
    };
    let ghost made = robot@;
    let found = dfs_path(robot);
    proof {
        assert forall|other: TextMaze|
            fault_of(maze@) is None && #[trigger] reads(&other, maze@) implies {
            &&& found is Ok <==> finish_within_reach(&other)
            &&& found matches Ok(keys) ==> direct_way(&other, keys@)
            &&& found matches Err(error) ==> error is NoPath
        } by {
            if let Ok(keys) = &found {
                lemma_same_maze(&made, &other, keys@);
            } else {
                lemma_same_maze(&made, &other, Seq::empty());
            }
        }
    }
    found
}

} // verus!
