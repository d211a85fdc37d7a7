//! Directions as the robot sees them.

use vstd::prelude::*;

verus! {

/// A direction told from the way the robot faces.
#[derive(Clone, Copy, Debug, PartialEq, Eq, Hash, Structural)]
pub enum RelativeDirection {
    Forward,
    Right,
    Backward,
    Left,
}

/// The four relative directions, clockwise from straight ahead.
pub const REL_DIR_ARR: [RelativeDirection; 4] = [
    RelativeDirection::Forward,
    RelativeDirection::Right,
    RelativeDirection::Backward,
    RelativeDirection::Left,
];

impl RelativeDirection {
    /// The number of quarter turns to the right that lead from straight
    /// ahead to this direction.
    pub open spec fn quarter_turns(self) -> int {
        match self {
            RelativeDirection::Forward => 0,
            RelativeDirection::Right => 1,
            RelativeDirection::Backward => 2,
            RelativeDirection::Left => 3,
        }
    }

    /// The name of the direction as a sequence of characters.
    pub open spec fn spelled(self) -> Seq<char> {
        match self {
            RelativeDirection::Forward => "Forward"@,
            RelativeDirection::Right => "Right"@,
            RelativeDirection::Backward => "Backward"@,
            RelativeDirection::Left => "Left"@,
        }
    }

    /// Returns the name of the direction.
    pub fn name(&self) -> (name: &'static str)
        ensures
            name@ == self.spelled(),
    {
        match self {
            RelativeDirection::Forward => "Forward",
            RelativeDirection::Right => "Right",
            RelativeDirection::Backward => "Backward",
            RelativeDirection::Left => "Left",
        }
    }
}

} // verus!
