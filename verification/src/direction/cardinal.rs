//! Directions on the compass.

use crate::direction::relative::RelativeDirection;
use vstd::prelude::*;

verus! {

/// A direction on the compass.
#[derive(Clone, Copy, Debug, PartialEq, Eq, Hash, Structural)]
pub enum CardinalDirection {
    North,
    East,
    South,
    West,
}

/// The four directions of the compass, clockwise from north.
pub const CARD_DIR_ARR: [CardinalDirection; 4] = [
    CardinalDirection::North,
    CardinalDirection::East,
    CardinalDirection::South,
    CardinalDirection::West,
];

impl CardinalDirection {
    /// The number of quarter turns to the right that lead from north to this
    /// direction.
    pub open spec fn quarter_turns(self) -> int {
        match self {
            CardinalDirection::North => 0,
            CardinalDirection::East => 1,
            CardinalDirection::South => 2,
            CardinalDirection::West => 3,
        }
    }

    /// The direction that the given number of quarter turns to the right,
    /// from 0 to 3, leads to from north.
    pub open spec fn of_quarter_turns(turns: int) -> CardinalDirection {
        if turns == 0 {
            CardinalDirection::North
        } else if turns == 1 {
            CardinalDirection::East
        } else if turns == 2 {
            CardinalDirection::South
        } else {
            CardinalDirection::West
        }
    }

    /// The direction on the compass in which a robot that faces this way
    /// sees the given relative direction.
    pub open spec fn turned(self, relative: RelativeDirection) -> CardinalDirection {
        CardinalDirection::of_quarter_turns(
            (self.quarter_turns() + relative.quarter_turns()) % 4,
        )
    }

    /// The name of the direction as a sequence of characters.
    pub open spec fn spelled(self) -> Seq<char> {
        match self {
            CardinalDirection::North => "North"@,
            CardinalDirection::East => "East"@,
            CardinalDirection::South => "South"@,
            CardinalDirection::West => "West"@,
        }
    }

    /// Returns the number of quarter turns to the right that lead from north
    /// to this direction.
    pub fn index(&self) -> (turns: usize)
        ensures
            turns == self.quarter_turns(),
    {
        match self {
            CardinalDirection::North => 0,
            CardinalDirection::East => 1,
            CardinalDirection::South => 2,
            CardinalDirection::West => 3,
        }
    }

    /// Returns the direction on the compass in which a robot that faces this
    /// way sees the given relative direction: this direction for forward,
    /// and one quarter turn to the right more for each of right, backward
    /// and left.
    pub fn from_relative(&self, relative: RelativeDirection) -> (turned: Self)
        ensures
            turned == self.turned(relative),
    {
        let ord: usize = match relative {
            RelativeDirection::Forward => usize::from(self),
            RelativeDirection::Right => usize::from(self) + 1,
            RelativeDirection::Backward => usize::from(self) + 2,
            RelativeDirection::Left => usize::from(self) + 3,
        };
        if ord >= 4 {
            CARD_DIR_ARR[ord - 4]
        } else {
            CARD_DIR_ARR[ord]
        }
    }

    /// Returns the name of the direction.
    pub fn name(&self) -> (name: &'static str)
        ensures
            name@ == self.spelled(),
    {
        match self {
            CardinalDirection::North => "North",
            CardinalDirection::East => "East",
            CardinalDirection::South => "South",
            CardinalDirection::West => "West",
        }
    }
}

impl vstd::std_specs::convert::FromSpecImpl<&CardinalDirection> for usize {
    open spec fn obeys_from_spec() -> bool {
        true
    }

    /// The number of quarter turns to the right that lead from north to the
    /// direction.
    open spec fn from_spec(value: &CardinalDirection) -> usize {
        value.quarter_turns() as usize
    }
}

impl From<&CardinalDirection> for usize {
    /// Returns the number of quarter turns to the right that lead from north
    /// to the direction: 0 for north, 1 for east, 2 for south, 3 for west.
    fn from(value: &CardinalDirection) -> (turns: usize) {
        value.index()
    }
}

impl vstd::std_specs::convert::FromSpecImpl<CardinalDirection> for usize {
    open spec fn obeys_from_spec() -> bool {
        true
    }

    /// The number of quarter turns to the right that lead from north to the
    /// direction.
    open spec fn from_spec(value: CardinalDirection) -> usize {
        value.quarter_turns() as usize
    }
}

impl From<CardinalDirection> for usize {
    /// Returns the number of quarter turns to the right that lead from north
    /// to the direction.
    fn from(value: CardinalDirection) -> (turns: usize) {
        value.index()
    }
}

/// Facing forward changes nothing, facing backward is turning round, the
/// opposite of a turn is the turn to the opposite side, and a turn to the
/// right is undone by a turn to the left.
pub proof fn lemma_turns(facing: CardinalDirection, relative: RelativeDirection)
    ensures
        facing.turned(RelativeDirection::Forward) == facing,
        facing.turned(RelativeDirection::Backward) == crate::direction::Direction::opposite(
            &facing,
        ),
        crate::direction::Direction::opposite(&facing.turned(relative)) == facing.turned(
            crate::direction::Direction::opposite(&relative),
        ),
        facing.turned(RelativeDirection::Right).turned(RelativeDirection::Left) == facing,
{
}

} // verus!
