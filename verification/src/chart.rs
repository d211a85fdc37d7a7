//! The chart that the robot draws of the maze while it explores.

use crate::cell_graph::{lemma_with, CellGraph, NeighborSlots, Slot};
use crate::maze::Maze;
use crate::parent_map::{
    entry_of, forebear_of, lemma_path_kept, lemma_path_step, trail_of, ParentMap,
};
use crate::place::{lemma_walk_push, step, walk_end};
use crate::solution::Key;
use crate::{Cell, Direction};
use vstd::prelude::*;

verus! {

/// All that the robot knows of the maze: the cells it has found, numbered
/// from 0 in the order in which it found them, and for each its key, the
/// slots of its four neighbours, and the step by which it was first reached.
///
/// Cell 0 is the cell in which the robot started; its key is `(0, 0)` and it
/// has no parent. A cell has one number and one key: the robot tells cells
/// apart by their place, so a cell that it reaches a second time, by
/// another way, is the cell it knows.
pub struct Chart {
    pub keys: Vec<Key>,
    pub graph: CellGraph,
    pub parents: ParentMap,
}

impl Chart {
    /// The number of cells on the chart.
    pub open spec fn len(&self) -> int {
        self.keys@.len() as int
    }

    /// The place of a cell.
    pub open spec fn place(&self, id: int) -> (int, int) {
        self.keys@[id]@
    }

    /// What the chart says of the cell next to a cell in a direction.
    pub open spec fn slot(&self, id: int, direction: Direction) -> Slot {
        self.graph@[id].slot(direction)
    }

    /// The walk from the start to a cell along the steps by which the cells
    /// on the way were first reached.
    pub open spec fn trail(&self, id: int) -> Seq<Direction> {
        trail_of(self.parents@, id)
    }

    /// The number of steps of the trail to a cell.
    pub open spec fn depth(&self, id: int) -> nat {
        self.trail(id).len()
    }

    /// The chart holds a cell at the place.
    pub open spec fn known(&self, place: (int, int)) -> bool {
        exists|id: int| 0 <= id < self.len() && #[trigger] self.place(id) == place
    }

    /// The cell has a parent with a smaller number, and lies next to it in
    /// the direction that its entry gives.
    pub open spec fn hangs(&self, id: int) -> bool {
        &&& self.parents@[id] matches Some(edge)
        &&& edge.0 < id
        &&& self.place(id) == step(self.place(edge.0 as int), edge.1)
    }

    /// The parent of a cell: the cell from which the robot first saw it.
    /// The start, which has none, stands for its own.
    pub open spec fn parent(&self, id: int) -> int {
        match entry_of(self.parents@, id) {
            Some(edge) => edge.0 as int,
            None => id,
        }
    }

    /// The direction in which a cell lies from its parent; north for the
    /// start, which has none.
    pub open spec fn heading(&self, id: int) -> Direction {
        match entry_of(self.parents@, id) {
            Some(edge) => edge.1,
            None => Direction::North,
        }
    }

    /// The slot of the cell's parent, in the direction in which the cell
    /// lies from it, names the cell.
    pub open spec fn named(&self, id: int) -> bool {
        self.slot(self.parent(id), self.heading(id)) == Slot::Cell(id as usize)
    }

    /// Where the slot of the cell for the direction holds a cell, that cell
    /// is on the chart and lies next to the cell in that direction.
    pub open spec fn linked(&self, id: int, direction: Direction) -> bool {
        self.slot(id, direction) matches Slot::Cell(other) ==> other < self.len() && self.place(
            other as int,
        ) == step(self.place(id), direction)
    }

    /// The cell lies no further from the start, east, west, north or south,
    /// than its number says.
    pub open spec fn near(&self, id: int) -> bool {
        &&& -id <= self.place(id).0 <= id
        &&& -id <= self.place(id).1 <= id
    }

    /// The chart is in order: it holds the start as cell 0, every other cell
    /// hangs on a parent, whose slot names it, no two cells share a place,
    /// and every slot that names a cell names the one that lies there.
    pub open spec fn wf(&self) -> bool {
        &&& self.len() >= 1
        &&& self.graph@.len() == self.len()
        &&& self.parents@.len() == self.len()
        &&& self.parents.wf()
        &&& self.place(0) == (0int, 0int)
        &&& self.parents@[0] is None
        &&& forall|id: int| 1 <= id < self.len() ==> #[trigger] self.hangs(id)
        &&& forall|id: int| 1 <= id < self.len() ==> #[trigger] self.named(id)
        &&& forall|a: int, b: int|
            0 <= a < b < self.len() ==> #[trigger] self.place(a) != #[trigger] self.place(b)
        &&& forall|id: int, direction: Direction|
            0 <= id < self.len() ==> #[trigger] self.linked(id, direction)
        &&& forall|id: int| 0 <= id < self.len() ==> #[trigger] self.near(id)
    }

    /// The chart is true of the maze, seen from where the robot started:
    /// the cells from 1 up to `open` are open cells of the maze, and where a
    /// slot says so there is a wall.
    pub open spec fn true_of<M: Maze>(&self, maze: &M, open: int) -> bool {
        &&& forall|id: int|
            1 <= id < open && id < self.len() ==> maze.cell_at(#[trigger] self.place(id))
                == Cell::Open
        &&& forall|id: int, direction: Direction|
            0 <= id < self.len() && #[trigger] self.slot(id, direction) == Slot::Blocked
                ==> maze.cell_at(step(self.place(id), direction)) == Cell::Wall
    }

    /// Where the slot of the cell for the direction holds a cell, the trail
    /// to that cell is at most one step longer than the trail to this one.
    pub open spec fn close(&self, id: int, direction: Direction) -> bool {
        self.slot(id, direction) matches Slot::Cell(other) ==> self.depth(other as int)
            <= self.depth(id) + 1
    }

    /// The cells are numbered in the order of their depth: no cell has a
    /// shorter trail than a cell with a smaller number.
    pub open spec fn levelled(&self) -> bool {
        forall|a: int, b: int|
            #![trigger self.depth(a), self.depth(b)]
            0 <= a <= b < self.len() ==> self.depth(a) <= self.depth(b)
    }

    /// The robot has looked all around the cell.
    pub open spec fn visited(&self, id: int) -> bool {
        self.graph@[id].resolved()
    }

    /// The robot has looked all around every cell with a smaller number
    /// than `cell`.
    pub open spec fn visited_before(&self, cell: int) -> bool {
        forall|id: int| 0 <= id < cell && id < self.len() ==> #[trigger] self.visited(id)
    }

    /// What the chart holds for a slot of a cell before the robot has
    /// looked from it: the parent of the cell on the way back to it, and
    /// nothing in the other directions.
    pub open spec fn foreknown(&self, id: int, way: Direction) -> Slot {
        if 1 <= id && way == self.heading(id).opposite() {
            Slot::Cell(self.parent(id) as usize)
        } else {
            Slot::Unresolved
        }
    }

    /// The robot has not looked from the parent of the cell in any
    /// direction that comes, in the order of looking, behind the one in
    /// which the cell lies.
    pub open spec fn unlooked_after(&self, id: int) -> bool {
        forall|way: Direction|
            way.rank() > self.heading(id).rank() ==> #[trigger] self.slot(self.parent(id), way)
                == self.foreknown(self.parent(id), way)
    }

    /// The robot has looked in no direction from any cell with a greater
    /// number than `cell`.
    pub open spec fn untouched_after(&self, cell: int) -> bool {
        forall|id: int| cell < id < self.len() ==> (#[trigger] self.graph@[id]).untouched()
    }

    /// Every child of the cell lies from it in a direction that comes, in
    /// the order of looking, before the place `rank`.
    pub open spec fn children_before(&self, cell: int, rank: int) -> bool {
        forall|child: int|
            1 <= child < self.len() && #[trigger] self.parent(child) == cell ==> self.heading(
                child,
            ).rank() < rank
    }

    /// The children of a cell are numbered in the order of looking: north
    /// before east, east before south, south before west.
    pub open spec fn in_looking_order(&self) -> bool {
        forall|a: int, b: int|
            #![trigger self.parent(a), self.parent(b)]
            1 <= a < b < self.len() && self.parent(a) == self.parent(b) ==> self.heading(
                a,
            ).rank() < self.heading(b).rank()
    }

    /// Every cell that this chart holds and the chart `before` did not hold
    /// has the cell `cell` for its parent.
    pub open spec fn seen_from(&self, before: &Chart, cell: int) -> bool {
        forall|id: int| before.len() <= id < self.len() ==> #[trigger] self.parent(id) == cell
    }

    /// The robot has looked from the parent of the cell in every direction
    /// that comes, in the order of looking, before the one in which the
    /// cell lies.
    pub open spec fn looked_before(&self, id: int) -> bool {
        forall|way: Direction|
            way.rank() < self.heading(id).rank() ==> #[trigger] self.slot(self.parent(id), way)
                != Slot::Unresolved
    }

    /// A chart that holds the start and nothing else.
    pub fn new() -> (chart: Self)
        ensures
            chart.wf(),
            chart.len() == 1,
            chart.graph@[0].untouched(),
    {
        let mut keys: Vec<Key> = Vec::new();
        keys.push(Key(0, 0));
        let mut graph = CellGraph::new();
        graph.add_cell();
        let mut parents = ParentMap::new();
        parents.edges.push(None);
        let chart = Chart { keys, graph, parents };
        assert(chart.near(0));
        chart
    }

    /// Returns the number of cells on the chart.
    pub fn size(&self) -> (len: usize)
        ensures
            len == self.len(),
    {
        self.keys.len()
    }

    /// Returns the key of a cell.
    pub fn key(&self, id: usize) -> (key: Key)
        requires
            id < self.len(),
        ensures
            key@ == self.place(id as int),
    {
        self.keys[id]
    }

    /// Looks a key up: returns the number of the cell at that place, or
    /// `None` where the chart holds no cell there.
    pub fn find(&self, key: Key) -> (found: Option<usize>)
        ensures
            found matches Some(id) ==> id < self.len() && self.place(id as int) == key@,
            found is None ==> !self.known(key@),
    {
        let mut id: usize = 0;
        while id < self.keys.len()
            invariant
                id <= self.keys.len(),
                forall|before: int| 0 <= before < id ==> #[trigger] self.place(before) != key@,
            decreases self.keys.len() - id,
        {
            let here = self.keys[id];
            if here.0 == key.0 && here.1 == key.1 {
                return Some(id);
            }
            id += 1;
        }
        None
    }

    /// Notes that the robot has seen a wall next to a cell.
    pub fn block(&mut self, cell: usize, direction: Direction)
        requires
            old(self).wf(),
            cell < old(self).len(),
            old(self).slot(cell as int, direction) == Slot::Unresolved,
        ensures
            final(self).wf(),
            final(self).keys == old(self).keys,
            final(self).parents == old(self).parents,
            final(self).graph@ == old(self).graph@.update(
                cell as int,
                old(self).graph@[cell as int].with(direction, Slot::Blocked),
            ),
    {
        self.graph.resolve(cell, direction, Slot::Blocked);
        proof {
            self.lemma_filled(old(self), cell as int, direction);
        }
    }

    /// Notes that the cell next to a cell is one that the chart holds
    /// already.
    pub fn link(&mut self, cell: usize, direction: Direction, other: usize)
        requires
            old(self).wf(),
            cell < old(self).len(),
            other < old(self).len(),
            old(self).slot(cell as int, direction) == Slot::Unresolved,
            old(self).place(other as int) == step(old(self).place(cell as int), direction),
        ensures
            final(self).wf(),
            final(self).keys == old(self).keys,
            final(self).parents == old(self).parents,
            final(self).graph@ == old(self).graph@.update(
                cell as int,
                old(self).graph@[cell as int].with(direction, Slot::Cell(other)),
            ),
    {
        self.graph.resolve(cell, direction, Slot::Cell(other));
        proof {
            self.lemma_filled(old(self), cell as int, direction);
        }
    }

    /// A chart in order, in which one unresolved slot has been filled with a
    /// wall or with the cell that lies there, and nothing else has changed,
    /// is in order.
    pub proof fn lemma_filled(&self, before: &Chart, cell: int, direction: Direction)
        requires
            before.wf(),
            0 <= cell < before.len(),
            before.slot(cell, direction) == Slot::Unresolved,
            self.keys == before.keys,
            self.parents == before.parents,
            self.graph@ == before.graph@.update(
                cell,
                before.graph@[cell].with(direction, self.slot(cell, direction)),
            ),
            self.slot(cell, direction) matches Slot::Cell(other) ==> other < before.len()
                && before.place(other as int) == step(before.place(cell), direction),
        ensures
            self.wf(),
    {
        lemma_with(before.graph@[cell], direction, self.slot(cell, direction));
        assert forall|id: int, way: Direction| 0 <= id < self.len() implies #[trigger]
            self.linked(id, way) by {
            assert(before.linked(id, way));
        }
        assert forall|id: int| 1 <= id < self.len() implies #[trigger] self.hangs(id) by {
            assert(before.hangs(id));
        }
        assert forall|id: int| 1 <= id < self.len() implies #[trigger] self.named(id) by {
            assert(before.named(id));
            assert(before.hangs(id));
        }
        assert forall|id: int| 0 <= id < self.len() implies #[trigger] self.near(id) by {
            assert(before.near(id));
        }
        assert forall|a: int, b: int| 0 <= a < b < self.len() implies #[trigger] self.place(a)
            != #[trigger] self.place(b) by {
            assert(before.place(a) != before.place(b));
        }
    }

    /// Puts a cell on the chart that the robot has just seen for the first
    /// time, next to `parent` in the direction: gives it the next number
    /// and its key, records `parent` as its parent, and fills the slot of
    /// `parent`. Returns the number.
    pub fn discover(&mut self, parent: usize, direction: Direction) -> (id: usize)
        requires
            old(self).wf(),
            parent < old(self).len(),
            old(self).slot(parent as int, direction) == Slot::Unresolved,
            !old(self).known(step(old(self).place(parent as int), direction)),
        ensures
            id == old(self).len(),
            final(self).grown_from(old(self), parent as int, direction),
    {
        proof {
            assert(old(self).near(parent as int));
        }
        let key = self.keys[parent].compute_in_dir(&direction);
        let id = self.keys.len();
        self.keys.push(key);
        self.graph.add_cell();
        self.parents.record(id, parent, direction);
        self.graph.resolve(parent, direction, Slot::Cell(id));
        proof {
            let before = *old(self);
            lemma_with(before.graph@[parent as int], direction, Slot::Cell(id));
            assert(self.keys@.take(id as int) =~= before.keys@);
            assert(self.parents@.take(id as int) =~= before.parents@);
            assert(self.graph@.take(id as int) =~= before.graph@.update(
                parent as int,
                before.graph@[parent as int].with(direction, Slot::Cell(id)),
            ));
            assert forall|cell: int| 0 <= cell < id implies self.place(cell) == before.place(
                cell,
            ) by {}
            assert forall|cell: int| 1 <= cell < self.len() implies #[trigger] self.hangs(
                cell,
            ) by {
                if cell < id {
                    assert(before.hangs(cell));
                }
            }
            assert forall|a: int, b: int| 0 <= a < b < self.len() implies #[trigger] self.place(a)
                != #[trigger] self.place(b) by {
                assert(before.place(a) == self.place(a));
                if b < id {
                    assert(before.place(b) == self.place(b));
                }
            }
            assert forall|cell: int| 1 <= cell < self.len() implies #[trigger] self.named(
                cell,
            ) by {
                if cell < id {
                    assert(before.named(cell));
                    assert(before.hangs(cell));
                    assert(self.parents@[cell] == before.parents@[cell]);
                }
            }
            assert forall|cell: int, way: Direction| 0 <= cell < self.len() implies #[trigger]
                self.linked(cell, way) by {
                if cell < id {
                    assert(before.linked(cell, way));
                }
            }
            assert forall|cell: int| 0 <= cell < self.len() implies #[trigger] self.near(cell) by {
                if cell < id {
                    assert(before.near(cell));
                }
            }
        }
        id
    }

    /// This chart is the chart `before` with one cell more, seen for the
    /// first time next to the cell `parent` in the direction: the new cell
    /// has the next number, hangs on `parent`, and nothing is known yet of
    /// the cells around it; the slot of `parent` names it; all else is as it
    /// was.
    pub open spec fn grown_from(&self, before: &Chart, parent: int, direction: Direction) -> bool {
        let id = before.len();
        &&& self.wf()
        &&& self.len() == id + 1
        &&& self.keys@.take(id) == before.keys@
        &&& self.parents@.take(id) == before.parents@
        &&& self.place(id) == step(before.place(parent), direction)
        &&& self.parents@[id] == Some((parent as usize, direction))
        &&& self.graph@[id].untouched()
        &&& self.graph@.take(id) == before.graph@.update(
            parent,
            before.graph@[parent].with(direction, Slot::Cell(id as usize)),
        )
    }

    /// This chart holds all that the chart `before` held: every cell of it,
    /// with its number, its key and its parent, and every slot of it that
    /// was filled, as it was filled. What the robot has once put on its
    /// chart stays.
    pub open spec fn extends(&self, before: &Chart) -> bool {
        &&& before.len() <= self.len()
        &&& self.keys@.take(before.len()) == before.keys@
        &&& self.parents@.take(before.len()) == before.parents@
        &&& forall|id: int, direction: Direction|
            0 <= id < before.len() && #[trigger] before.slot(id, direction) != Slot::Unresolved
                ==> self.slot(id, direction) == before.slot(id, direction)
    }

    /// The chart leads to the finish: it is in order and true of the maze,
    /// its cells are numbered in the order of looking, and its last cell,
    /// `finish`, is a finish of the maze while all before it but the start
    /// are open cells.
    pub open spec fn shows_finish<M: Maze>(&self, maze: &M, finish: int) -> bool {
        &&& self.wf()
        &&& self.in_looking_order()
        &&& 1 <= finish
        &&& finish == self.len() - 1
        &&& self.true_of(maze, finish)
        &&& maze.cell_at(self.place(finish)) == Cell::Finish
    }

    /// In a chart that has grown by a cell, the slots of every cell but the
    /// parent of the new one are as they were.
    pub proof fn lemma_grown_slots(
        &self,
        before: &Chart,
        parent: int,
        direction: Direction,
        id: int,
    )
        requires
            before.wf(),
            0 <= parent < before.len(),
            self.grown_from(before, parent, direction),
            0 <= id < before.len(),
        ensures
            self.place(id) == before.place(id),
            id != parent ==> self.graph@[id] == before.graph@[id],
            self.graph@[parent] == before.graph@[parent].with(
                direction,
                Slot::Cell(before.len() as usize),
            ),
            self.trail(id) == before.trail(id),
    {
        assert(self.graph@.take(before.len())[id] == self.graph@[id]);
        assert(self.graph@.take(before.len())[parent] == self.graph@[parent]);
        before.lemma_grown(self, id);
    }

    /// A cell from which the robot has looked in no direction has no child.
    pub proof fn lemma_childless(&self, cell: int)
        requires
            self.wf(),
            0 <= cell < self.len(),
            self.graph@[cell].untouched(),
        ensures
            self.children_before(cell, 0),
    {
        assert forall|child: int|
            1 <= child < self.len() && #[trigger] self.parent(child) == cell implies self.heading(
            child,
        ).rank() < 0 by {
            assert(self.named(child));
            assert(self.hangs(child));
        }
    }

    /// In a chart that has grown by a cell, every cell has the parent it
    /// had; the new cell is the last child of its parent, and the children
    /// are numbered in the order of looking if they were and the new cell
    /// lies in a direction behind those of the others.
    pub proof fn lemma_grown_order(&self, before: &Chart, parent: int, direction: Direction)
        requires
            before.wf(),
            0 <= parent < before.len(),
            self.grown_from(before, parent, direction),
        ensures
            self.parent(before.len()) == parent,
            self.heading(before.len()) == direction,
            forall|id: int|
                0 <= id < before.len() ==> #[trigger] self.parent(id) == before.parent(id)
                    && self.heading(id) == before.heading(id),
            before.in_looking_order() && before.children_before(parent, direction.rank())
                ==> self.in_looking_order() && self.children_before(
                parent,
                direction.rank() + 1,
            ),
    {
        assert(before.keys@.len() == before.keys.len());
        assert forall|id: int| 0 <= id < before.len() implies #[trigger] self.parent(id)
            == before.parent(id) && self.heading(id) == before.heading(id) by {
            assert(self.parents@.take(before.len())[id] == self.parents@[id]);
        }
        if before.in_looking_order() && before.children_before(parent, direction.rank()) {
            assert forall|a: int, b: int|
                #![trigger self.parent(a), self.parent(b)]
                1 <= a < b < self.len() && self.parent(a) == self.parent(b) implies self.heading(
                a,
            ).rank() < self.heading(b).rank() by {
                assert(self.parent(a) == before.parent(a));
                if b < before.len() {
                    assert(self.parent(b) == before.parent(b));
                }
            }
            assert forall|child: int|
                1 <= child < self.len() && #[trigger] self.parent(child)
                    == parent implies self.heading(child).rank() < direction.rank() + 1 by {
                if child < before.len() {
                    assert(self.parent(child) == before.parent(child));
                }
            }
        }
    }

    /// A chart that was true of the maze and has grown by a cell is true of
    /// the maze as far as the cells before the new one go.
    pub proof fn lemma_grown_true<M: Maze>(
        &self,
        before: &Chart,
        parent: int,
        direction: Direction,
        maze: &M,
    )
        requires
            before.wf(),
            0 <= parent < before.len(),
            before.slot(parent, direction) == Slot::Unresolved,
            self.grown_from(before, parent, direction),
            before.true_of(maze, before.len()),
        ensures
            self.true_of(maze, before.len()),
    {
        lemma_with(before.graph@[parent], direction, Slot::Cell(before.len() as usize));
        assert forall|id: int| 1 <= id < before.len() && id < self.len() implies maze.cell_at(
            #[trigger] self.place(id),
        ) == Cell::Open by {
            self.lemma_grown_slots(before, parent, direction, id);
            assert(maze.cell_at(before.place(id)) == Cell::Open);
        }
        assert forall|id: int, way: Direction|
            0 <= id < self.len() && #[trigger] self.slot(id, way)
                == Slot::Blocked implies maze.cell_at(step(self.place(id), way))
            == Cell::Wall by {
            if id < before.len() {
                self.lemma_grown_slots(before, parent, direction, id);
                assert(before.slot(id, way) == Slot::Blocked);
            }
        }
    }

    /// A chart extends itself.
    pub proof fn lemma_extends_itself(&self)
        requires
            self.wf(),
        ensures
            self.extends(self),
    {
        assert(self.keys@.take(self.len()) =~= self.keys@);
        assert(self.parents@.take(self.len()) =~= self.parents@);
    }

    /// A chart that extends one that extends a third extends the third.
    pub proof fn lemma_extends(&self, middle: &Chart, first: &Chart)
        requires
            self.wf(),
            middle.wf(),
            first.wf(),
            self.extends(middle),
            middle.extends(first),
        ensures
            self.extends(first),
    {
        assert(self.keys@.take(first.len()) =~= self.keys@.take(middle.len()).take(first.len()));
        assert(self.parents@.take(first.len()) =~= self.parents@.take(middle.len()).take(
            first.len(),
        ));
        assert forall|id: int, direction: Direction|
            0 <= id < first.len() && #[trigger] first.slot(id, direction)
                != Slot::Unresolved implies self.slot(id, direction) == first.slot(
            id,
            direction,
        ) by {
            assert(middle.slot(id, direction) == first.slot(id, direction));
        }
    }

    /// A chart in which one unresolved slot has been filled, and nothing
    /// else has changed, extends the chart it was.
    pub proof fn lemma_filled_extends(&self, before: &Chart, cell: int, direction: Direction)
        requires
            before.wf(),
            0 <= cell < before.len(),
            before.slot(cell, direction) == Slot::Unresolved,
            self.keys == before.keys,
            self.parents == before.parents,
            self.graph@ == before.graph@.update(
                cell,
                before.graph@[cell].with(direction, self.slot(cell, direction)),
            ),
        ensures
            self.extends(before),
    {
        lemma_with(before.graph@[cell], direction, self.slot(cell, direction));
        assert(self.keys@.take(before.len()) =~= before.keys@);
        assert(self.parents@.take(before.len()) =~= before.parents@);
    }

    /// A chart that has grown by a cell extends the chart it was.
    pub proof fn lemma_grown_extends(&self, before: &Chart, parent: int, direction: Direction)
        requires
            before.wf(),
            0 <= parent < before.len(),
            before.slot(parent, direction) == Slot::Unresolved,
            self.grown_from(before, parent, direction),
        ensures
            self.extends(before),
    {
        lemma_with(before.graph@[parent], direction, Slot::Cell(before.len() as usize));
        assert forall|id: int, way: Direction|
            0 <= id < before.len() && #[trigger] before.slot(id, way)
                != Slot::Unresolved implies self.slot(id, way) == before.slot(id, way) by {
            self.lemma_grown_slots(before, parent, direction, id);
        }
    }

    /// The trail to a cell leads from the start to the cell's place.
    pub proof fn lemma_trail_leads(&self, id: int)
        requires
            self.wf(),
            0 <= id < self.len(),
        ensures
            walk_end((0, 0), self.trail(id)) == self.place(id),
        decreases id,
    {
        if id >= 1 {
            assert(self.hangs(id));
            let edge = self.parents@[id]->0;
            self.lemma_trail_leads(edge.0 as int);
            lemma_path_step(self.parents@, id, edge.0, edge.1);
            lemma_walk_push((0, 0), self.trail(edge.0 as int), edge.1);
        } else {
            assert(self.trail(0) =~= Seq::<Direction>::empty());
        }
    }

    /// Following parents from any cell of the chart leads to the start, and
    /// to no cell twice: each parent has a smaller number than its child, so
    /// the start is reached after as many steps as the cell lies deep, which
    /// are no more than its number and so fewer than the chart has cells.
    pub proof fn lemma_parents_lead_to_start(&self, id: int, up: nat)
        requires
            self.wf(),
            0 <= id < self.len(),
        ensures
            self.depth(id) <= id < self.len(),
            forebear_of(self.parents@, id, self.depth(id)) == 0,
            up < self.depth(id) ==> 0 < forebear_of(self.parents@, id, up) <= id - up,
            up >= self.depth(id) ==> forebear_of(self.parents@, id, up) == 0,
        decreases id,
    {
        if id >= 1 {
            assert(self.hangs(id));
            let edge = self.parents@[id]->0;
            lemma_path_step(self.parents@, id, edge.0, edge.1);
            self.lemma_parents_lead_to_start(edge.0 as int, (self.depth(id) - 1) as nat);
            if up >= 1 {
                self.lemma_parents_lead_to_start(edge.0 as int, (up - 1) as nat);
            }
        } else {
            assert(self.trail(0) =~= Seq::<Direction>::empty());
            if up >= 1 {
                assert(forebear_of(self.parents@, 0, up) == 0);
            }
        }
    }

    /// Every beginning of the trail to a cell is the trail to a cell with
    /// no greater number.
    pub proof fn lemma_trail_beginning(&self, id: int, steps: int) -> (forebear: int)
        requires
            self.wf(),
            0 <= id < self.len(),
            0 <= steps <= self.depth(id),
        ensures
            0 <= forebear <= id,
            self.trail(forebear) == self.trail(id).take(steps),
            steps < self.depth(id) ==> forebear < id,
        decreases id,
    {
        if steps == self.depth(id) {
            assert(self.trail(id).take(steps) =~= self.trail(id));
            id
        } else {
            assert(id >= 1) by {
                if id == 0 {
                    assert(self.trail(0) =~= Seq::<Direction>::empty());
                }
            }
            assert(self.hangs(id));
            let edge = self.parents@[id]->0;
            lemma_path_step(self.parents@, id, edge.0, edge.1);
            let forebear = self.lemma_trail_beginning(edge.0 as int, steps);
            assert(self.trail(id).take(steps) =~= self.trail(edge.0 as int).take(steps));
            forebear
        }
    }

    /// A chart that has grown holds every cell it held, at its place and
    /// with its trail.
    pub proof fn lemma_grown(&self, later: &Chart, id: int)
        requires
            self.wf(),
            later.wf(),
            self.len() <= later.len(),
            later.keys@.take(self.len()) == self.keys@,
            later.parents@.take(self.len()) == self.parents@,
            0 <= id < self.len(),
        ensures
            later.place(id) == self.place(id),
            later.trail(id) == self.trail(id),
    {
        assert(later.keys@.take(self.len())[id] == later.keys@[id]);
        assert forall|k: int| 0 <= k < self.parents@.len() implies self.parents@[k]
            == later.parents@[k] by {
            assert(later.parents@.take(self.len())[k] == later.parents@[k]);
        }
        assert(later.parents@.take(self.len()).len() == self.len());
        lemma_path_kept(self.parents@, later.parents@, id);
    }
}

} // verus!
