//! The search in breadth.

use crate::explorer::{explore, finish_within_reach, Solution, SolveError};
use crate::frontier::Order;
use crate::maze::{reliable, Maze};
use crate::robot::RobotInternal;
use vstd::prelude::*;

verus! {

/// Searches the maze in breadth, from where the robot stands: the cells are
/// looked around in the order in which they were found.
///
/// The solution that is returned leads from the robot's cell to a finish,
/// and by no more steps than any walk to a finish takes. Its cells are
/// numbered in the order of their depth and, among the children of a cell,
/// in the order north, east, south, west; the robot has looked around
/// every cell with a smaller number than the parent of the finish.
/// `NoPath` is returned only where no finish is within reach, and `Move`
/// only where the maze refuses a step into a cell that is no wall, which a
/// reliable maze never does.
pub fn find_solution<M: Maze>(robot: RobotInternal<M>) -> (found: Result<Solution, SolveError>)
    ensures
        found matches Ok(solution) ==> solution.solves(&robot@) && solution.shortest(&robot@),
        found matches Err(error) ==> !(error is Creation),
        found matches Err(SolveError::NoPath) ==> !finish_within_reach(&robot@),
        found matches Err(SolveError::Move { from, to, source }) ==> source is MoveError
            && !reliable(&robot@),
        found is Ok ==> finish_within_reach(&robot@),
        reliable(&robot@) ==> (found is Ok <==> finish_within_reach(&robot@)),
{
    explore(robot, Order::Fifo)
}

} // verus!
