//! What the robot has learned of the cells around each cell it knows.

use crate::Direction;
use vstd::prelude::*;

verus! {

/// What is known of the cell next to a cell in one direction.
#[derive(Clone, Copy, Debug, PartialEq, Eq, Structural)]
pub enum Slot {
    /// The robot has not looked there yet.
    Unresolved,
    /// There is a wall.
    Blocked,
    /// There is the cell with this number.
    Cell(usize),
}

/// What is known of the four cells next to a cell, one slot per direction.
#[derive(Clone, Copy, Debug, PartialEq, Eq, Structural)]
pub struct NeighborSlots {
    pub north: Slot,
    pub east: Slot,
    pub south: Slot,
    pub west: Slot,
}

impl NeighborSlots {
    /// The slot for a direction.
    pub open spec fn slot(self, direction: Direction) -> Slot {
        match direction {
            Direction::North => self.north,
            Direction::East => self.east,
            Direction::South => self.south,
            Direction::West => self.west,
        }
    }

    /// These slots with the one for a direction replaced.
    pub open spec fn with(self, direction: Direction, slot: Slot) -> NeighborSlots {
        match direction {
            Direction::North => NeighborSlots { north: slot, ..self },
            Direction::East => NeighborSlots { east: slot, ..self },
            Direction::South => NeighborSlots { south: slot, ..self },
            Direction::West => NeighborSlots { west: slot, ..self },
        }
    }

    /// The robot has looked in every direction.
    pub open spec fn resolved(self) -> bool {
        forall|direction: Direction| self.slot(direction) != Slot::Unresolved
    }

    /// The robot has looked in no direction.
    pub open spec fn untouched(self) -> bool {
        forall|direction: Direction| self.slot(direction) == Slot::Unresolved
    }

    /// The first direction, in the order north, east, south, west, whose
    /// slot holds the cell `target`.
    pub open spec fn way_to(self, target: usize) -> Option<Direction> {
        if self.north == Slot::Cell(target) {
            Some(Direction::North)
        } else if self.east == Slot::Cell(target) {
            Some(Direction::East)
        } else if self.south == Slot::Cell(target) {
            Some(Direction::South)
        } else if self.west == Slot::Cell(target) {
            Some(Direction::West)
        } else {
            None
        }
    }

    /// Slots of a cell around which the robot has not looked.
    pub fn new() -> (slots: Self)
        ensures
            slots.untouched(),
    {
        NeighborSlots {
            north: Slot::Unresolved,
            east: Slot::Unresolved,
            south: Slot::Unresolved,
            west: Slot::Unresolved,
        }
    }

    /// Returns the slot for a direction.
    pub fn get(&self, direction: Direction) -> (slot: Slot)
        ensures
            slot == self.slot(direction),
    {
        match direction {
            Direction::North => self.north,
            Direction::East => self.east,
            Direction::South => self.south,
            Direction::West => self.west,
        }
    }

    /// Replaces the slot for a direction.
    pub fn set(&mut self, direction: Direction, slot: Slot)
        ensures
            *final(self) == old(self).with(direction, slot),
    {
        match direction {
            Direction::North => {
                self.north = slot;
            },
            Direction::East => {
                self.east = slot;
            },
            Direction::South => {
                self.south = slot;
            },
            Direction::West => {
                self.west = slot;
            },
        }
    }
}

/// Replacing one slot changes that slot and no other.
pub proof fn lemma_with(slots: NeighborSlots, direction: Direction, slot: Slot)
    ensures
        slots.with(direction, slot).slot(direction) == slot,
        forall|other: Direction|
            other != direction ==> #[trigger] slots.with(direction, slot).slot(other)
                == slots.slot(other),
{
}

/// Finds the direction in which a cell lies next to another: the first
/// direction, in the order north, east, south, west, whose slot holds
/// `target`; `None` where no slot holds it.
pub fn find_direction_to_neighbor(neighbors: &NeighborSlots, target: usize) -> (way: Option<
    Direction,
>)
    ensures
        way == neighbors.way_to(target),
        way matches Some(direction) ==> neighbors.slot(direction) == Slot::Cell(target),
        way is None ==> forall|direction: Direction|
            neighbors.slot(direction) != Slot::Cell(target),
{
    let mut rank: usize = 0;
    while rank < 4
        invariant
            rank <= 4,
            forall|before: int|
                0 <= before < rank ==> neighbors.slot(#[trigger] Direction::ranked(before))
                    != Slot::Cell(target),
        decreases 4 - rank,
    {
        let direction = Direction::from_index(rank);
        match neighbors.get(direction) {
            Slot::Cell(id) => {
                if id == target {
                    assert(Direction::ranked(0) == Direction::North);
                    assert(Direction::ranked(1) == Direction::East);
                    assert(Direction::ranked(2) == Direction::South);
                    return Some(direction);
                }
            },
            _ => {},
        }
        rank += 1;
    }
    assert(Direction::ranked(0) == Direction::North);
    assert(Direction::ranked(1) == Direction::East);
    assert(Direction::ranked(2) == Direction::South);
    assert(Direction::ranked(3) == Direction::West);
    assert forall|direction: Direction| neighbors.slot(direction) != Slot::Cell(target) by {
        assert(direction == Direction::ranked(direction.rank()));
    }
    None
}

/// Why an outcome could not be registered: the robot had seen something else
/// there before.
#[derive(Clone, Copy, Debug, PartialEq, Eq, Structural)]
pub struct Conflict {
    /// The cell from which the robot looked.
    pub cell: usize,
    /// The direction in which it looked.
    pub direction: Direction,
    /// What it had seen there before.
    pub known: Slot,
    /// What it is said to have seen now.
    pub offered: Slot,
}

/// The graph of the cells the robot knows: for each cell, by its number, the
/// slots of its four neighbours. Cells are numbered from 0 in the order in
/// which they are added.
pub struct CellGraph {
    pub cells: Vec<NeighborSlots>,
}

impl View for CellGraph {
    type V = Seq<NeighborSlots>;

    open spec fn view(&self) -> Seq<NeighborSlots> {
        self.cells@
    }
}

impl CellGraph {
    /// A graph without cells.
    pub fn new() -> (graph: Self)
        ensures
            graph@.len() == 0,
    {
        CellGraph { cells: Vec::new() }
    }

    /// Returns the number of cells.
    pub fn len(&self) -> (len: usize)
        ensures
            len == self@.len(),
    {
        self.cells.len()
    }

    /// Adds a cell around which the robot has not looked, and returns its
    /// number.
    pub fn add_cell(&mut self) -> (id: usize)
        ensures
            id == old(self)@.len(),
            final(self)@.len() == old(self)@.len() + 1,
            final(self)@.take(id as int) == old(self)@,
            final(self)@[id as int].untouched(),
    {
        let id = self.cells.len();
        self.cells.push(NeighborSlots::new());
        assert(self@.take(id as int) =~= old(self)@);
        id
    }

    /// Returns the slots of a cell, as far as they are filled.
    pub fn neighbors(&self, cell: usize) -> (slots: NeighborSlots)
        requires
            cell < self@.len(),
        ensures
            slots == self@[cell as int],
    {
        self.cells[cell]
    }

    /// Fills a slot that is still unresolved.
    pub fn resolve(&mut self, cell: usize, direction: Direction, outcome: Slot)
        requires
            cell < old(self)@.len(),
            old(self)@[cell as int].slot(direction) == Slot::Unresolved,
        ensures
            final(self)@ == old(self)@.update(
                cell as int,
                old(self)@[cell as int].with(direction, outcome),
            ),
    {
        let mut slots = self.cells[cell];
        slots.set(direction, outcome);
        self.cells[cell] = slots;
    }

    /// Records what the robot has seen from a cell in a direction.
    ///
    /// A slot that is unresolved takes the outcome. A slot that holds the
    /// same outcome already stays as it is. A slot that holds another
    /// outcome stays as it is too, and the conflict is returned: what the
    /// robot sees from a cell does not change.
    pub fn register(&mut self, cell: usize, direction: Direction, outcome: Slot) -> (done: Result<
        (),
        Conflict,
    >)
        requires
            cell < old(self)@.len(),
        ensures
            ({
                let known = old(self)@[cell as int].slot(direction);
                &&& known == outcome ==> done is Ok && final(self)@ == old(self)@
                &&& known != outcome && known == Slot::Unresolved ==> done is Ok && final(self)@
                    == old(self)@.update(
                    cell as int,
                    old(self)@[cell as int].with(direction, outcome),
                )
                &&& known != outcome && known != Slot::Unresolved ==> done == Err::<(), Conflict>(
                    Conflict { cell, direction, known, offered: outcome },
                ) && final(self)@ == old(self)@
            }),
    {
        let known = self.cells[cell].get(direction);
        if known == outcome {
            Ok(())
        } else if known == Slot::Unresolved {
            self.resolve(cell, direction, outcome);
            Ok(())
        } else {
            Err(Conflict { cell, direction, known, offered: outcome })
        }
    }
}

} // verus!
