//! Directions on the compass and directions as the robot sees them.

use vstd::prelude::*;

pub mod cardinal;
pub mod relative;

pub use cardinal::{CardinalDirection, CARD_DIR_ARR};
pub use relative::{RelativeDirection, REL_DIR_ARR};

verus! {

/// A direction that can be turned round.
pub trait Direction: Sized {
    /// The direction that points the other way.
    spec fn opposite(&self) -> Self;

    /// Turning round twice gives the direction one started with.
    proof fn lemma_opposite_twice(&self)
        ensures
            self.opposite().opposite() == *self,
    ;

    /// Returns the direction that points the other way.
    fn reverse(&self) -> (back: Self)
        ensures
            back == self.opposite(),
    ;
}

impl Direction for CardinalDirection {
    open spec fn opposite(&self) -> Self {
        match self {
            CardinalDirection::North => CardinalDirection::South,
            CardinalDirection::South => CardinalDirection::North,
            CardinalDirection::East => CardinalDirection::West,
            CardinalDirection::West => CardinalDirection::East,
        }
    }

    proof fn lemma_opposite_twice(&self) {
    }

    fn reverse(&self) -> (back: Self) {
        match self {
            CardinalDirection::North => CardinalDirection::South,
            CardinalDirection::South => CardinalDirection::North,
            CardinalDirection::East => CardinalDirection::West,
            CardinalDirection::West => CardinalDirection::East,
        }
    }
}

impl Direction for RelativeDirection {
    open spec fn opposite(&self) -> Self {
        match self {
            RelativeDirection::Forward => RelativeDirection::Backward,
            RelativeDirection::Backward => RelativeDirection::Forward,
            RelativeDirection::Right => RelativeDirection::Left,
            RelativeDirection::Left => RelativeDirection::Right,
        }
    }

    proof fn lemma_opposite_twice(&self) {
    }

    fn reverse(&self) -> (back: Self) {
        match self {
            RelativeDirection::Forward => RelativeDirection::Backward,
            RelativeDirection::Backward => RelativeDirection::Forward,
            RelativeDirection::Right => RelativeDirection::Left,
            RelativeDirection::Left => RelativeDirection::Right,
        }
    }
}

} // verus!
