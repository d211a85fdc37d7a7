//! The search: the robot looks around one cell after another until it sees
//! the finish or has no cell left to look around.

use crate::cell_graph::{lemma_with, Slot};
use crate::chart::Chart;
use crate::frontier::{FrontierQueue, Order};
use crate::maze::{carried, lemma_carried_twice, reliable, Maze, MazeError};
use crate::navigator::navigate;
use crate::parent_map::{lemma_path_cells, lemma_path_step, path_of};
use crate::place::{
    lemma_step_back, lemma_step_plus, lemma_walk_plus, lemma_walk_push, minus, plus, step,
    walk_end,
};
use crate::robot::{clear_walk, RobotInternal};
use crate::solution::Key;
use crate::{Cell, Direction};
use vstd::prelude::*;

verus! {

/// How far a search has come.
#[derive(Clone, Copy, Debug, PartialEq, Eq, Structural)]
pub enum Progress {
    /// Cells are left to look around.
    Exploring,
    /// The robot has seen the finish; it is the cell with this number.
    Found(usize),
    /// No cell is left to look around, and the finish was not seen.
    Exhausted,
}

/// Why a search ended without a path to the finish.
#[derive(Debug)]
pub enum SolveError {
    /// The text is no maze.
    Creation(MazeError),
    /// On its way from the cell `from` to the cell `to` the robot could not
    /// take a step that its chart shows to be free: the maze has not kept
    /// still.
    Move { from: usize, to: usize, source: MazeError },
    /// The robot has looked around every cell it can reach, and none of
    /// them lies next to the finish.
    NoPath,
}

/// A walk from the robot's cell that enters no wall and ends on a finish
/// other than the cell it started from.
pub open spec fn reaches_finish<M: Maze>(maze: &M, walk: Seq<Direction>) -> bool {
    &&& clear_walk(maze, (0, 0), walk)
    &&& walk_end((0, 0), walk) != (0int, 0int)
    &&& maze.cell_at(walk_end((0, 0), walk)) == Cell::Finish
}

/// The robot can walk to a finish.
pub open spec fn finish_within_reach<M: Maze>(maze: &M) -> bool {
    exists|walk: Seq<Direction>| reaches_finish(maze, walk)
}

/// No walk that leads the robot to a finish has fewer steps than `steps`.
pub open spec fn nearest<M: Maze>(maze: &M, steps: nat) -> bool {
    forall|walk: Seq<Direction>| #[trigger] reaches_finish(maze, walk) ==> walk.len() >= steps
}

/// A search under way: the robot, its chart, the cells that wait to be
/// looked around, and the cell on the chart in which the robot stands.
///
/// In contracts the search also remembers the maze as it was when it began,
/// `start`, and counts the cells that have been looked around, `visits`.
pub struct Explorer<M: Maze> {
    pub robot: RobotInternal<M>,
    pub chart: Chart,
    pub frontier: FrontierQueue,
    pub location: usize,
    pub start: Ghost<M>,
    pub visits: Ghost<nat>,
}

impl<M: Maze> Explorer<M> {
    /// Every cell that waits is on the chart.
    pub open spec fn queued(&self) -> bool {
        forall|k: int|
            0 <= k < self.frontier@.len() ==> #[trigger] self.frontier@[k] < self.chart.len()
    }

    /// No cell waits twice, the robot has looked in no direction from a cell
    /// that waits, and the cell `busy` that the robot is looking around
    /// waits no more: a cell waits once, from when it is found until its
    /// turn comes.
    pub open spec fn waits_once(&self, busy: Option<usize>) -> bool {
        &&& forall|i: int, j: int|
            #![trigger self.frontier@[i], self.frontier@[j]]
            0 <= i < j < self.frontier@.len() ==> self.frontier@[i] != self.frontier@[j]
        &&& forall|k: int|
            0 <= k < self.frontier@.len() ==> self.chart.graph@[#[trigger] self.frontier@[k]
                as int].untouched()
        &&& busy matches Some(cell) ==> !self.frontier@.contains(cell)
    }

    /// Every cell on the chart has been looked around, or waits, or is the
    /// cell `busy` that the robot is looking around.
    pub open spec fn covered(&self, busy: Option<usize>) -> bool {
        forall|id: int|
            0 <= id < self.chart.len() ==> #[trigger] self.chart.visited(id)
                || self.frontier@.contains(id as usize) || busy == Some(id as usize)
    }

    /// What a search in breadth keeps besides: the cells are looked around
    /// in the order of their numbers, which is the order of their depth; no
    /// cell lies more than one step deeper than the cell whose turn it is;
    /// and no slot names a cell more than one step deeper than its own.
    pub open spec fn level_order(&self, busy: Option<usize>) -> bool {
        let first = self.visits@ as int;
        &&& busy matches Some(cell) ==> cell == first
        &&& forall|k: int|
            0 <= k < self.frontier@.len() ==> #[trigger] self.frontier@[k] == first + (if busy
                is Some {
                1int
            } else {
                0int
            }) + k
        &&& self.chart.levelled()
        &&& first < self.chart.len() ==> forall|id: int|
            0 <= id < self.chart.len() ==> #[trigger] self.chart.depth(id) <= self.chart.depth(
                first,
            ) + 1
        &&& forall|id: int, direction: Direction|
            0 <= id < self.chart.len() ==> #[trigger] self.chart.close(id, direction)
    }

    /// The search is in order while the robot looks around the cell `busy`,
    /// or between two cells where `busy` is `None`: the chart is in order
    /// and true of the maze, its cells are numbered in the order of looking,
    /// the robot stands in the cell `location`, and every cell has been
    /// looked around or waits for it, once; and a search in breadth keeps
    /// the order of the levels.
    pub open spec fn state(&self, busy: Option<usize>) -> bool {
        &&& self.chart.wf()
        &&& self.chart.in_looking_order()
        &&& self.chart.true_of(&self.start@, self.chart.len())
        &&& self.location < self.chart.len()
        &&& carried(&self.start@, &self.robot@, self.chart.place(self.location as int))
        &&& self.robot@.honest() == self.start@.honest()
        &&& self.queued()
        &&& self.waits_once(busy)
        &&& self.covered(busy)
        &&& self.visits@ + self.frontier@.len() + (if busy is Some {
            1int
        } else {
            0int
        }) == self.chart.len()
        &&& busy matches Some(cell) ==> cell == self.location
        &&& self.frontier.order == Order::Fifo ==> self.level_order(busy)
    }

    /// A finish lies next to the cell in the direction, and is not the cell
    /// in which the robot started.
    pub open spec fn finish_lies(&self, cell: int, direction: Direction) -> bool {
        let place = step(self.chart.place(cell), direction);
        place != (0int, 0int) && self.start@.cell_at(place) == Cell::Finish
    }

    /// A finish lies next to the cell.
    pub open spec fn beside_finish(&self, cell: int) -> bool {
        exists|direction: Direction| self.finish_lies(cell, direction)
    }

    /// What the robot sees from the cell it stands in is what the maze held
    /// there when the search began.
    pub proof fn lemma_sight(&self, direction: Direction)
        requires
            carried(&self.start@, &self.robot@, self.chart.place(self.location as int)),
        ensures
            self.robot@.cell_at(step((0, 0), direction)) == self.start@.cell_at(
                step(self.chart.place(self.location as int), direction),
            ),
    {
        lemma_step_plus(self.chart.place(self.location as int), (0, 0), direction);
    }

    /// Begins a search: the chart holds the start, which waits to be looked
    /// around, and the robot stands in it.
    pub fn new(robot: RobotInternal<M>, order: Order) -> (search: Self)
        ensures
            search.state(None),
            search.robot == robot,
            search.start@ == robot@,
            search.visits@ == 0,
            search.location == 0,
            search.chart.len() == 1,
            search.chart.graph@[0].untouched(),
            search.frontier.order == order,
            search.frontier@ == seq![0usize],
    {
        let ghost start = robot@;
        let mut frontier = FrontierQueue::new(order);
        frontier.enqueue(0);
        let search = Explorer {
            robot,
            chart: Chart::new(),
            frontier,
            location: 0,
            start: Ghost(start),
            visits: Ghost(0),
        };
        proof {
            assert forall|place: (int, int)| plus(place, (0, 0)) == place by {}
            assert(search.frontier@[0] == 0);
            assert forall|id: int| 0 <= id < search.chart.len() implies #[trigger]
                search.chart.visited(id) || search.frontier@.contains(id as usize) by {
                assert(search.frontier@[0] == id as usize);
            }
            assert forall|id: int, direction: Direction|
                0 <= id < search.chart.len() && #[trigger] search.chart.slot(id, direction)
                    == Slot::Blocked implies search.start@.cell_at(
                step(search.chart.place(id), direction),
            ) == Cell::Wall by {
                assert(search.chart.graph@[0].slot(direction) == Slot::Unresolved);
            }
        }
        search
    }

    /// Notes a wall next to the cell the robot is looking around.
    pub fn note_wall(&mut self, direction: Direction)
        requires
            old(self).state(Some(old(self).location)),
            old(self).chart.slot(old(self).location as int, direction) == Slot::Unresolved,
            old(self).start@.cell_at(
                step(old(self).chart.place(old(self).location as int), direction),
            ) == Cell::Wall,
        ensures
            final(self).state(Some(final(self).location)),
            final(self).chart.keys == old(self).chart.keys,
            final(self).chart.parents == old(self).chart.parents,
            final(self).chart.graph@ == old(self).chart.graph@.update(
                old(self).location as int,
                old(self).chart.graph@[old(self).location as int].with(direction, Slot::Blocked),
            ),
            final(self).robot == old(self).robot,
            final(self).frontier == old(self).frontier,
            final(self).location == old(self).location,
            final(self).start == old(self).start,
            final(self).visits == old(self).visits,
    {
        let ghost before = *old(self);
        let cell = self.location;
        self.chart.block(cell, direction);
        proof {
            lemma_with(before.chart.graph@[cell as int], direction, Slot::Blocked);
            self.lemma_kept(&before, cell as int, direction);
        }
    }

    /// Notes that the cell next to the one the robot is looking around is
    /// the cell `other` of the chart.
    pub fn note_known(&mut self, direction: Direction, other: usize)
        requires
            old(self).state(Some(old(self).location)),
            old(self).chart.slot(old(self).location as int, direction) == Slot::Unresolved,
            other < old(self).chart.len(),
            old(self).chart.place(other as int) == step(
                old(self).chart.place(old(self).location as int),
                direction,
            ),
        ensures
            final(self).state(Some(final(self).location)),
            final(self).chart.keys == old(self).chart.keys,
            final(self).chart.parents == old(self).chart.parents,
            final(self).chart.graph@ == old(self).chart.graph@.update(
                old(self).location as int,
                old(self).chart.graph@[old(self).location as int].with(
                    direction,
                    Slot::Cell(other),
                ),
            ),
            final(self).robot == old(self).robot,
            final(self).frontier == old(self).frontier,
            final(self).location == old(self).location,
            final(self).start == old(self).start,
            final(self).visits == old(self).visits,
    {
        let ghost before = *old(self);
        let cell = self.location;
        self.chart.link(cell, direction, other);
        proof {
            lemma_with(before.chart.graph@[cell as int], direction, Slot::Cell(other));
            self.lemma_kept(&before, cell as int, direction);
        }
    }

    /// Puts on the chart an open cell that the robot has just seen for the
    /// first time next to the cell it is looking around, and lets it wait.
    /// Returns its number. The robot looks in the order north, east, south,
    /// west: the children that the cell has lie in directions before this.
    pub fn note_new(&mut self, direction: Direction) -> (id: usize)
        requires
            old(self).state(Some(old(self).location)),
            old(self).chart.children_before(old(self).location as int, direction.rank()),
            old(self).chart.slot(old(self).location as int, direction) == Slot::Unresolved,
            !old(self).chart.known(
                step(old(self).chart.place(old(self).location as int), direction),
            ),
            old(self).start@.cell_at(
                step(old(self).chart.place(old(self).location as int), direction),
            ) == Cell::Open,
        ensures
            final(self).state(Some(final(self).location)),
            final(self).chart.grown_from(&old(self).chart, old(self).location as int, direction),
            final(self).chart.children_before(old(self).location as int, direction.rank() + 1),
            id == old(self).chart.len(),
            final(self).frontier@ == old(self).frontier@.push(id),
            final(self).frontier.order == old(self).frontier.order,
            final(self).robot == old(self).robot,
            final(self).location == old(self).location,
            final(self).start == old(self).start,
            final(self).visits == old(self).visits,
    {
        let ghost before = *old(self);
        let cell = self.location;
        let id = self.chart.discover(cell, direction);
        self.frontier.enqueue(id);
        proof {
            self.chart.lemma_grown_order(&before.chart, cell as int, direction);
            self.chart.lemma_grown_true(&before.chart, cell as int, direction, &self.start@);
            assert(self.start@.cell_at(self.chart.place(id as int)) == Cell::Open);
            assert forall|other: int| 1 <= other < self.chart.len() implies self.start@.cell_at(
                #[trigger] self.chart.place(other),
            ) == Cell::Open by {}
            assert forall|k: int| 0 <= k < self.frontier@.len() implies #[trigger]
                self.frontier@[k] < self.chart.len() by {
                if k < before.frontier@.len() {
                    assert(before.frontier@[k] < before.chart.len());
                }
            }
            assert forall|other: int| 0 <= other < self.chart.len() implies #[trigger]
                self.chart.visited(other) || self.frontier@.contains(other as usize) || Some(
                self.location,
            ) == Some(other as usize) by {
                if other == id {
                    assert(self.frontier@[before.frontier@.len() as int] == id);
                } else if other != cell {
                    self.chart.lemma_grown_slots(&before.chart, cell as int, direction, other);
                    if !before.chart.visited(other) {
                        let k = choose|k: int|
                            0 <= k < before.frontier@.len() && before.frontier@[k]
                                == other as usize;
                        assert(self.frontier@[k] == other as usize);
                    }
                }
            }
            assert(self.waits_once(Some(self.location))) by {
                assert(before.waits_once(Some(before.location)));
                assert forall|k: int| 0 <= k < before.frontier@.len() implies #[trigger]
                    self.frontier@[k] < id && self.frontier@[k] != cell by {
                    assert(before.frontier@[k] < before.chart.len());
                    assert(before.frontier@.contains(before.frontier@[k]));
                }
                assert forall|k: int|
                    0 <= k < self.frontier@.len() implies self.chart.graph@[#[trigger]
                    self.frontier@[k] as int].untouched() by {
                    if k < before.frontier@.len() {
                        let waiting = before.frontier@[k];
                        assert(self.frontier@[k] == waiting);
                        self.chart.lemma_grown_slots(
                            &before.chart,
                            cell as int,
                            direction,
                            waiting as int,
                        );
                        assert(before.chart.graph@[waiting as int].untouched());
                    }
                }
                assert forall|i: int, j: int|
                    #![trigger self.frontier@[i], self.frontier@[j]]
                    0 <= i < j < self.frontier@.len() implies self.frontier@[i]
                    != self.frontier@[j] by {
                    if j < before.frontier@.len() {
                        assert(before.frontier@[i] != before.frontier@[j]);
                    }
                }
                if self.frontier@.contains(cell) {
                    let k = choose|k: int|
                        0 <= k < self.frontier@.len() && self.frontier@[k] == cell;
                    if k < before.frontier@.len() {
                        assert(before.frontier@[k] == cell);
                    }
                }
            }
            if self.frontier.order == Order::Fifo {
                self.lemma_level_grown(&before, direction);
            }
        }
        id
    }

    /// Puts the finish on the chart, which the robot has just seen next to
    /// the cell it is looking around. Returns its number. The children that
    /// the cell has lie in directions before this.
    pub fn note_finish(&mut self, direction: Direction) -> (id: usize)
        requires
            old(self).state(Some(old(self).location)),
            old(self).chart.children_before(old(self).location as int, direction.rank()),
            old(self).chart.slot(old(self).location as int, direction) == Slot::Unresolved,
            !old(self).chart.known(
                step(old(self).chart.place(old(self).location as int), direction),
            ),
            old(self).start@.cell_at(
                step(old(self).chart.place(old(self).location as int), direction),
            ) == Cell::Finish,
        ensures
            final(self).chart.grown_from(&old(self).chart, old(self).location as int, direction),
            id == old(self).chart.len(),
            final(self).chart.shows_finish(&final(self).start@, id as int),
            old(self).frontier.order == Order::Fifo ==> final(self).chart.levelled() && nearest(
                &final(self).start@,
                final(self).chart.depth(id as int),
            ),
            old(self).frontier.order == Order::Fifo ==> final(self).chart.visited_before(
                old(self).location as int,
            ) && final(self).chart.untouched_after(old(self).location as int),
            final(self).frontier == old(self).frontier,
            final(self).robot == old(self).robot,
            final(self).location == old(self).location,
            final(self).start == old(self).start,
            final(self).visits == old(self).visits,
    {
        let ghost before = *old(self);
        let cell = self.location;
        let id = self.chart.discover(cell, direction);
        proof {
            self.chart.lemma_grown_order(&before.chart, cell as int, direction);
            self.chart.lemma_grown_true(&before.chart, cell as int, direction, &self.start@);
            if self.frontier.order == Order::Fifo {
                self.lemma_level_grown(&before, direction);
                before.lemma_level_nearest();
                before.lemma_visited_before();
                assert forall|other: int|
                    0 <= other < cell && other < self.chart.len() implies #[trigger]
                    self.chart.visited(other) by {
                    self.chart.lemma_grown_slots(&before.chart, cell as int, direction, other);
                    assert(before.chart.visited(other));
                }
                assert forall|other: int| cell < other < self.chart.len() implies (#[trigger]
                    self.chart.graph@[other]).untouched() by {
                    if other < before.chart.len() {
                        self.chart.lemma_grown_slots(&before.chart, cell as int, direction, other);
                        let k = other - before.visits@ - 1;
                        assert(before.frontier@[k] == other);
                        assert(before.chart.graph@[before.frontier@[k] as int].untouched());
                    }
                }
            }
        }
        id
    }

    /// Looks around the cell in which the robot stands.
    ///
    /// The slot towards the cell's parent is filled from the chart. Then the
    /// robot looks north, east, south and west, wherever the slot is still
    /// unresolved. A wall is noted as such. A cell whose place the chart
    /// holds already is noted as that cell. A finish ends the search: it is
    /// put on the chart and its number is returned, and the directions after
    /// it are not looked at. An open cell is put on the chart and waits.
    ///
    /// So the finish is seen exactly where it lies next to the cell. The
    /// robot has not looked from the cell before, whose turn has come; the
    /// cells that are found are its children, numbered in the order in
    /// which the robot has looked.
    pub fn look_around(&mut self) -> (seen: Option<usize>)
        requires
            old(self).state(Some(old(self).location)),
            old(self).chart.graph@[old(self).location as int].untouched(),
        ensures
            seen matches Some(finish) ==> final(self).chart.unlooked_after(finish as int),
            seen matches Some(finish) ==> (old(self).frontier.order == Order::Fifo
                ==> final(self).chart.untouched_after(final(self).chart.parent(finish as int))),
            seen is Some <==> old(self).beside_finish(old(self).location as int),
            final(self).chart.extends(&old(self).chart),
            final(self).chart.seen_from(&old(self).chart, old(self).location as int),
            final(self).chart.in_looking_order(),
            seen matches Some(finish) ==> final(self).chart.looked_before(finish as int),
            seen matches Some(finish) ==> (old(self).frontier.order == Order::Fifo
                ==> final(self).chart.visited_before(final(self).chart.parent(finish as int))),
            old(self).frontier@.len() <= final(self).frontier@.len(),
            final(self).frontier@.take(old(self).frontier@.len() as int) == old(self).frontier@,
            final(self).location == old(self).location,
            final(self).start == old(self).start,
            final(self).visits == old(self).visits,
            final(self).frontier.order == old(self).frontier.order,
            final(self).robot == old(self).robot,
            seen is None ==> final(self).state(Some(final(self).location))
                && final(self).chart.visited(final(self).location as int),
            seen matches Some(finish) ==> final(self).chart.shows_finish(
                &final(self).start@,
                finish as int,
            ),
            seen matches Some(finish) ==> (old(self).frontier.order == Order::Fifo ==> nearest(
                &final(self).start@,
                final(self).chart.depth(finish as int),
            )),
            seen is Some && old(self).frontier.order == Order::Fifo
                ==> final(self).chart.levelled(),
    {
        let cell = self.location;
        proof {
            self.chart.lemma_extends_itself();
            self.chart.lemma_childless(cell as int);
            assert(self.frontier@.take(self.frontier@.len() as int) =~= self.frontier@);
        }
        match self.chart.parents.get(cell) {
            Some(edge) => {
                let back = edge.1.reverse();
                proof {
                    assert(self.chart.hangs(cell as int));
                    lemma_step_back(self.chart.place(edge.0 as int), edge.1);
                }
                if self.chart.graph.neighbors(cell).get(back) == Slot::Unresolved {
                    let ghost turned = *self;
                    self.note_known(back, edge.0);
                    proof {
                        self.chart.lemma_filled_extends(&old(self).chart, cell as int, back);
                        self.lemma_same_parents(&turned);
                        lemma_with(turned.chart.graph@[cell as int], back, Slot::Cell(edge.0));
                    }
                }
            },
            None => {},
        }
        let mut rank: usize = 0;
        while rank < 4
            invariant
                rank <= 4,
                cell == self.location,
                cell == old(self).location,
                self.state(Some(self.location)),
                forall|before: int|
                    0 <= before < rank ==> self.chart.slot(
                        cell as int,
                        #[trigger] Direction::ranked(before),
                    ) != Slot::Unresolved,
                self.chart.place(cell as int) == old(self).chart.place(cell as int),
                old(self).chart.wf(),
                self.chart.extends(&old(self).chart),
                self.chart.seen_from(&old(self).chart, cell as int),
                self.chart.children_before(cell as int, rank as int),
                forall|way: Direction|
                    way.rank() >= rank ==> #[trigger] self.chart.slot(cell as int, way)
                        == self.chart.foreknown(cell as int, way),
                old(self).frontier@.len() <= self.frontier@.len(),
                self.frontier@.take(old(self).frontier@.len() as int) == old(self).frontier@,
                forall|before: int|
                    0 <= before < rank ==> !old(self).finish_lies(
                        cell as int,
                        #[trigger] Direction::ranked(before),
                    ),
                self.start == old(self).start,
                self.visits == old(self).visits,
                self.frontier.order == old(self).frontier.order,
                self.robot == old(self).robot,
            decreases 4 - rank,
        {
            let direction = Direction::from_index(rank);
            let ghost entering = *self;
            proof {
                let slot = self.chart.slot(cell as int, direction);
                assert(self.chart.linked(cell as int, direction));
                if let Slot::Cell(other) = slot {
                    if other != 0 {
                        assert(self.start@.cell_at(self.chart.place(other as int)) == Cell::Open);
                    }
                }
            }
            if self.chart.graph.neighbors(cell).get(direction) == Slot::Unresolved {
                let sight = self.robot.peek(direction);
                proof {
                    self.lemma_sight(direction);
                    assert(self.chart.near(cell as int));
                    assert(self.chart.keys@.len() == self.chart.keys.len());
                }
                match sight {
                    Cell::Wall => {
                        self.note_wall(direction);
                        proof {
                            self.chart.lemma_filled_extends(
                                &entering.chart,
                                cell as int,
                                direction,
                            );
                            self.lemma_same_parents(&entering);
                        }
                    },
                    _ => {
                        let key = self.chart.key(cell).compute_in_dir(&direction);
                        match self.chart.find(key) {
                            Some(other) => {
                                proof {
                                    if other != 0 {
                                        assert(self.start@.cell_at(
                                            self.chart.place(other as int),
                                        ) == Cell::Open);
                                    }
                                }
                                self.note_known(direction, other);
                                proof {
                                    self.chart.lemma_filled_extends(
                                        &entering.chart,
                                        cell as int,
                                        direction,
                                    );
                                    self.lemma_same_parents(&entering);
                                }
                            },
                            None => {
                                match sight {
                                    Cell::Finish => {
                                        let finish = self.note_finish(direction);
                                        proof {
                                            assert(entering.chart.place(0) == (0int, 0int));
                                            assert(old(self).finish_lies(cell as int, direction));
                                            self.chart.lemma_grown_order(
                                                &entering.chart,
                                                cell as int,
                                                direction,
                                            );
                                            assert forall|way: Direction|
                                                way.rank() > direction.rank() implies #[trigger]
                                                self.chart.slot(cell as int, way)
                                                == self.chart.foreknown(cell as int, way) by {
                                                assert(entering.chart.slot(cell as int, way)
                                                    == entering.chart.foreknown(
                                                    cell as int,
                                                    way,
                                                ));
                                                self.chart.lemma_grown_slots(
                                                    &entering.chart,
                                                    cell as int,
                                                    direction,
                                                    cell as int,
                                                );
                                                lemma_with(
                                                    entering.chart.graph@[cell as int],
                                                    direction,
                                                    Slot::Cell(finish),
                                                );
                                            }
                                            assert forall|way: Direction|
                                                way.rank() < direction.rank() implies #[trigger]
                                                self.chart.slot(cell as int, way)
                                                != Slot::Unresolved by {
                                                assert(way == Direction::ranked(way.rank()));
                                                assert(entering.chart.slot(
                                                    cell as int,
                                                    Direction::ranked(way.rank()),
                                                ) != Slot::Unresolved);
                                                self.chart.lemma_grown_slots(
                                                    &entering.chart,
                                                    cell as int,
                                                    direction,
                                                    cell as int,
                                                );
                                                lemma_with(
                                                    entering.chart.graph@[cell as int],
                                                    direction,
                                                    Slot::Cell(finish),
                                                );
                                            }
                                            self.chart.lemma_grown_extends(
                                                &entering.chart,
                                                cell as int,
                                                direction,
                                            );
                                            self.chart.lemma_extends(
                                                &entering.chart,
                                                &old(self).chart,
                                            );
                                        }
                                        return Some(finish);
                                    },
                                    _ => {
                                        self.note_new(direction);
                                        proof {
                                            self.chart.lemma_grown_order(
                                                &entering.chart,
                                                cell as int,
                                                direction,
                                            );
                                            self.chart.lemma_grown_slots(
                                                &entering.chart,
                                                cell as int,
                                                direction,
                                                cell as int,
                                            );
                                            self.chart.lemma_grown_extends(
                                                &entering.chart,
                                                cell as int,
                                                direction,
                                            );
                                            assert(self.frontier@.take(
                                                old(self).frontier@.len() as int,
                                            ) =~= entering.frontier@.take(
                                                old(self).frontier@.len() as int,
                                            ));
                                        }
                                    },
                                }
                            },
                        }
                    },
                }
                proof {
                    self.chart.lemma_extends(&entering.chart, &old(self).chart);
                    let filled = self.chart.slot(cell as int, direction);
                    lemma_with(entering.chart.graph@[cell as int], direction, filled);
                    assert forall|way: Direction| way.rank() >= rank + 1 implies #[trigger]
                        self.chart.slot(cell as int, way) == self.chart.foreknown(
                        cell as int,
                        way,
                    ) by {
                        assert(entering.chart.slot(cell as int, way)
                            == entering.chart.foreknown(cell as int, way));
                        assert(self.chart.parent(cell as int) == entering.chart.parent(
                            cell as int,
                        ));
                    }
                    assert(filled != Slot::Unresolved);
                    assert forall|before: int| 0 <= before < rank implies self.chart.slot(
                        cell as int,
                        #[trigger] Direction::ranked(before),
                    ) != Slot::Unresolved by {
                        assert(entering.chart.slot(cell as int, Direction::ranked(before))
                            != Slot::Unresolved);
                    }
                }
            }
            assert(!old(self).finish_lies(cell as int, direction));
            rank += 1;
        }
        proof {
            assert forall|direction: Direction| !old(self).finish_lies(cell as int, direction) by {
                assert(direction == Direction::ranked(direction.rank()));
            }
            assert forall|direction: Direction| self.chart.graph@[cell as int].slot(direction)
                != Slot::Unresolved by {
                assert(direction == Direction::ranked(direction.rank()));
                assert(self.chart.slot(cell as int, Direction::ranked(direction.rank()))
                    != Slot::Unresolved);
            }
        }
        None
    }

    /// While the search is in order, every cell of the route from the
    /// robot's cell to a cell of the chart is no wall, as the robot sees the
    /// maze, provided the robot did not start in a wall.
    pub proof fn lemma_route_clear(&self, busy: Option<usize>, target: int)
        requires
            self.state(busy),
            0 <= target < self.chart.len(),
            self.start@.cell_at((0, 0)) != Cell::Wall,
        ensures
            clear_walk(&self.robot@, (0, 0), self.chart.route(self.location as int, target)),
    {
        let here = self.chart.place(self.location as int);
        let route = self.chart.route(self.location as int, target);
        self.chart.lemma_route(self.location as int, target);
        assert forall|steps: int| 0 < steps <= route.len() implies self.robot@.cell_at(
            #[trigger] walk_end((0, 0), route.take(steps)),
        ) != Cell::Wall by {
            let seen = walk_end((0, 0), route.take(steps));
            lemma_walk_plus((0, 0), here, route.take(steps));
            assert(plus((0, 0), here) == here);
            assert(self.robot@.cell_at(seen) == self.start@.cell_at(plus(seen, here)));
            assert(self.chart.known(walk_end(here, route.take(steps))));
            let id = choose|id: int|
                0 <= id < self.chart.len() && #[trigger] self.chart.place(id) == walk_end(
                    here,
                    route.take(steps),
                );
            if id == 0 {
            } else {
                assert(self.start@.cell_at(self.chart.place(id)) == Cell::Open);
            }
        }
    }

    /// Takes the search one cell further.
    ///
    /// Where no cell waits, the search is exhausted and nothing changes.
    /// Otherwise the robot walks to the cell that comes next and looks
    /// around it: the search has found the finish, where it lies next to
    /// that cell, or goes on with one cell more looked around. The walk
    /// fails only where the maze refuses a step that the chart shows to be
    /// free, and never in a reliable maze. The cells that are found are
    /// children of the cell taken, numbered in the order in which the robot
    /// has looked: north, east, south, west.
    pub fn advance(&mut self) -> (progress: Result<Progress, SolveError>)
        requires
            old(self).state(None),
        ensures
            final(self).start == old(self).start,
            final(self).frontier.order == old(self).frontier.order,
            final(self).chart.extends(&old(self).chart),
            old(self).frontier.rest().len() <= final(self).frontier@.len(),
            final(self).frontier@.take(old(self).frontier.rest().len() as int)
                == old(self).frontier.rest(),
            progress is Err ==> final(self).chart == old(self).chart,
            (progress matches Ok(Progress::Exhausted)) <==> old(self).frontier@.len() == 0,
            progress matches Ok(Progress::Exhausted) ==> {
                &&& final(self).chart == old(self).chart
                &&& final(self).robot == old(self).robot
                &&& final(self).location == old(self).location
                &&& final(self).visits == old(self).visits
            },
            progress is Ok ==> ((progress matches Ok(Progress::Found(_))) <==> {
                &&& old(self).frontier.next() matches Some(cell)
                &&& old(self).beside_finish(cell as int)
            }),
            progress matches Ok(Progress::Exploring) ==> Some(final(self).location)
                == old(self).frontier.next(),
            progress is Ok ==> (old(self).frontier.next() matches Some(cell)
                ==> final(self).chart.seen_from(&old(self).chart, cell as int)),
            progress matches Ok(Progress::Found(finish)) ==> final(self).chart.looked_before(
                finish as int,
            ) && final(self).chart.unlooked_after(finish as int),
            progress matches Ok(Progress::Found(finish)) ==> (old(self).frontier.order
                == Order::Fifo ==> final(self).chart.visited_before(
                final(self).chart.parent(finish as int),
            ) && final(self).chart.untouched_after(final(self).chart.parent(finish as int))),
            progress matches Err(SolveError::Move { from, to, source }) ==> {
                &&& from == old(self).location
                &&& Some(to) == old(self).frontier.next()
                &&& old(self).chart.refused_between(from as int, to as int, source)
            },
            progress matches Ok(Progress::Exploring) ==> final(self).state(None),
            progress matches Ok(Progress::Exploring) ==> final(self).visits@ == old(self).visits@
                + 1,
            progress matches Ok(Progress::Exhausted) ==> final(self).state(None),
            progress matches Ok(Progress::Exhausted) ==> final(self).frontier@.len() == 0,
            progress matches Ok(Progress::Found(finish)) ==> final(self).chart.shows_finish(
                &final(self).start@,
                finish as int,
            ),
            progress matches Ok(Progress::Found(finish)) ==> (old(self).frontier.order
                == Order::Fifo ==> final(self).chart.levelled() && nearest(
                &final(self).start@,
                final(self).chart.depth(finish as int),
            )),
            progress matches Err(error) ==> error is Move && !reliable(&old(self).start@),
    {
        proof {
            self.chart.lemma_extends_itself();
        }
        let next = self.frontier.dequeue();
        proof {
            assert(self.frontier@.take(self.frontier@.len() as int) =~= self.frontier@);
        }
        let cell = match next {
            None => {
                return Ok(Progress::Exhausted);
            },
            Some(cell) => cell,
        };
        let from = self.location;
        let ghost waiting = *old(self);
        let ghost stood = self.robot@;
        proof {
            let taken = match waiting.frontier.order {
                Order::Fifo => 0int,
                Order::Lifo => waiting.frontier@.len() - 1,
            };
            assert(waiting.frontier@[taken] == cell);
            assert(waiting.frontier@[taken] < waiting.chart.len());
            if reliable(&self.start@) {
                waiting.lemma_route_clear(None, cell as int);
            }
        }
        match navigate(&mut self.robot, &self.chart, from, cell) {
            Err(source) => {
                proof {
                    let route = waiting.chart.route(from as int, cell as int);
                    let done = choose|done: int|
                        0 <= done < route.len() && carried(
                            &stood,
                            &self.robot@,
                            #[trigger] walk_end((0, 0), route.take(done)),
                        ) && source.refuses(route[done]);
                    assert(source.refuses(route[done]));
                    assert(waiting.chart.refused_between(from as int, cell as int, source));
                }
                return Err(SolveError::Move { from, to: cell, source });
            },
            Ok(at) => {
                self.location = at;
            },
        }
        proof {
            lemma_carried_twice(
                &self.start@,
                &stood,
                &self.robot@,
                self.chart.place(from as int),
                minus(self.chart.place(cell as int), self.chart.place(from as int)),
            );
            self.lemma_taken(&waiting, cell);
        }
        match self.look_around() {
            Some(finish) => Ok(Progress::Found(finish)),
            None => {
                let ghost looked = *self;
                self.visits = Ghost((self.visits@ + 1) as nat);
                proof {
                    self.lemma_looked(&looked);
                }
                Ok(Progress::Exploring)
            },
        }
    }

    /// A search that has taken the next cell out of those that wait, and
    /// whose robot has walked there, is in order for looking around that
    /// cell, from which the robot has not looked yet.
    pub proof fn lemma_taken(&self, waiting: &Explorer<M>, cell: usize)
        requires
            waiting.state(None),
            waiting.frontier.next() == Some(cell),
            self.frontier@ == waiting.frontier.rest(),
            self.frontier.order == waiting.frontier.order,
            self.chart == waiting.chart,
            self.start == waiting.start,
            self.visits == waiting.visits,
            self.location == cell,
            carried(&self.start@, &self.robot@, self.chart.place(cell as int)),
            self.robot@.honest() == self.start@.honest(),
        ensures
            self.state(Some(cell)),
            self.chart.graph@[cell as int].untouched(),
            self.beside_finish(cell as int) == waiting.beside_finish(cell as int),
    {
        let taken = match waiting.frontier.order {
            Order::Fifo => 0int,
            Order::Lifo => waiting.frontier@.len() - 1,
        };
        let shift = match waiting.frontier.order {
            Order::Fifo => 1int,
            Order::Lifo => 0int,
        };
        assert(waiting.frontier@[taken] == cell);
        assert(waiting.frontier@[taken] < waiting.chart.len());
        assert forall|k: int| 0 <= k < self.frontier@.len() implies self.frontier@[k]
            == waiting.frontier@[k + shift] && k + shift != taken by {}
        assert(self.queued()) by {
            assert forall|k: int| 0 <= k < self.frontier@.len() implies #[trigger]
                self.frontier@[k] < self.chart.len() by {
                assert(waiting.frontier@[k + shift] < waiting.chart.len());
            }
        }
        assert(self.waits_once(Some(cell))) by {
            assert(waiting.waits_once(None));
            assert forall|i: int, j: int|
                #![trigger self.frontier@[i], self.frontier@[j]]
                0 <= i < j < self.frontier@.len() implies self.frontier@[i]
                != self.frontier@[j] by {
                assert(waiting.frontier@[i + shift] != waiting.frontier@[j + shift]);
            }
            assert forall|k: int|
                0 <= k < self.frontier@.len() implies self.chart.graph@[#[trigger]
                self.frontier@[k] as int].untouched() by {
                assert(waiting.chart.graph@[waiting.frontier@[k + shift] as int].untouched());
            }
            if self.frontier@.contains(cell) {
                let k = choose|k: int| 0 <= k < self.frontier@.len() && self.frontier@[k] == cell;
                if k + shift < taken {
                    assert(waiting.frontier@[k + shift] != waiting.frontier@[taken]);
                } else {
                    assert(waiting.frontier@[taken] != waiting.frontier@[k + shift]);
                }
            }
        }
        assert(self.chart.keys@.len() == self.chart.keys.len());
        assert(self.covered(Some(cell))) by {
            assert(waiting.covered(None));
            assert forall|id: int| 0 <= id < self.chart.len() implies #[trigger]
                self.chart.visited(id) || self.frontier@.contains(id as usize) || Some(cell)
                == Some(id as usize) by {
                if !waiting.chart.visited(id) && id != cell {
                    let k = choose|k: int|
                        0 <= k < waiting.frontier@.len() && waiting.frontier@[k] == id as usize;
                    assert(k != taken);
                    assert(self.frontier@[k - shift] == waiting.frontier@[k - shift + shift]);
                }
            }
        }
        if self.frontier.order == Order::Fifo {
            assert(waiting.level_order(None));
            assert forall|k: int| 0 <= k < self.frontier@.len() implies #[trigger]
                self.frontier@[k] == self.visits@ + 1 + k by {
                assert(waiting.frontier@[k + 1] == waiting.visits@ + (k + 1));
            }
            assert(self.level_order(Some(cell)));
        }
        assert(waiting.chart.graph@[waiting.frontier@[taken] as int].untouched());
        if self.beside_finish(cell as int) {
            let direction = choose|direction: Direction| self.finish_lies(cell as int, direction);
            assert(waiting.finish_lies(cell as int, direction));
        }
        if waiting.beside_finish(cell as int) {
            let direction = choose|direction: Direction|
                waiting.finish_lies(cell as int, direction);
            assert(self.finish_lies(cell as int, direction));
        }
    }

    /// A search that has looked all around the cell whose turn it was is in
    /// order for the next cell, with one cell more looked around.
    pub proof fn lemma_looked(&self, looked: &Explorer<M>)
        requires
            looked.state(Some(looked.location)),
            looked.chart.visited(looked.location as int),
            self.chart == looked.chart,
            self.frontier == looked.frontier,
            self.robot == looked.robot,
            self.location == looked.location,
            self.start == looked.start,
            self.visits@ == looked.visits@ + 1,
        ensures
            self.state(None),
    {
        assert(looked.chart.keys@.len() == looked.chart.keys.len());
        assert(looked.covered(Some(looked.location)));
        assert(looked.waits_once(Some(looked.location)));
        assert forall|id: int| 0 <= id < self.chart.len() implies #[trigger] self.chart.visited(
            id,
        ) || self.frontier@.contains(id as usize) by {
            assert(looked.chart.visited(id) || looked.frontier@.contains(id as usize) || Some(
                looked.location,
            ) == Some(id as usize));
        }
        if self.frontier.order == Order::Fifo {
            assert(looked.level_order(Some(looked.location)));
            assert forall|k: int| 0 <= k < self.frontier@.len() implies #[trigger]
                self.frontier@[k] == self.visits@ + k by {
                assert(looked.frontier@[k] == looked.visits@ + 1 + k);
            }
            if self.visits@ < self.chart.len() {
                assert forall|id: int| 0 <= id < self.chart.len() implies #[trigger]
                    self.chart.depth(id) <= self.chart.depth(self.visits@ as int) + 1 by {
                    assert(looked.chart.depth(id) <= looked.chart.depth(looked.visits@ as int)
                        + 1);
                    assert(looked.chart.depth(looked.visits@ as int) <= looked.chart.depth(
                        self.visits@ as int,
                    ));
                }
            }
        }
    }

    /// A search in breadth that has put a new cell on its chart, next to the
    /// cell it is looking around, keeps the order of the levels: the new
    /// cell lies one step deeper than that cell, and so as deep as any.
    pub proof fn lemma_level_grown(&self, before: &Explorer<M>, direction: Direction)
        requires
            before.state(Some(before.location)),
            before.frontier.order == Order::Fifo,
            self.chart.grown_from(&before.chart, before.location as int, direction),
            self.visits == before.visits,
            self.frontier@ == before.frontier@ || self.frontier@ == before.frontier@.push(
                before.chart.len() as usize,
            ),
        ensures
            self.level_order(Some(before.location)),
            self.chart.depth(before.chart.len()) == before.chart.depth(before.location as int)
                + 1,
            forall|id: int|
                0 <= id < before.chart.len() ==> #[trigger] self.chart.depth(id)
                    == before.chart.depth(id),
    {
        let cell = before.location as int;
        let id = before.chart.len();
        assert(before.chart.keys@.len() == before.chart.keys.len());
        assert(before.level_order(Some(before.location)));
        assert forall|other: int| 0 <= other < id implies #[trigger] self.chart.depth(other)
            == before.chart.depth(other) by {
            self.chart.lemma_grown_slots(&before.chart, cell, direction, other);
        }
        lemma_path_step(
            self.chart.parents@,
            id,
            before.location,
            direction,
        );
        assert(self.chart.depth(id) == self.chart.depth(cell) + 1);
        assert forall|a: int, b: int|
            #![trigger self.chart.depth(a), self.chart.depth(b)]
            0 <= a <= b < self.chart.len() implies self.chart.depth(a) <= self.chart.depth(
            b,
        ) by {
            if b < id {
                assert(before.chart.depth(a) <= before.chart.depth(b));
            } else if a < id {
                assert(before.chart.depth(a) <= before.chart.depth(cell) + 1);
            }
        }
        assert forall|other: int| 0 <= other < self.chart.len() implies #[trigger]
            self.chart.depth(other) <= self.chart.depth(self.visits@ as int) + 1 by {
            if other < id {
                assert(before.chart.depth(other) <= before.chart.depth(cell) + 1);
            }
        }
        assert forall|other: int, way: Direction| 0 <= other < self.chart.len() implies #[trigger]
            self.chart.close(other, way) by {
            if other < id {
                self.chart.lemma_grown_slots(&before.chart, cell, direction, other);
                assert(before.chart.close(other, way));
                lemma_with(before.chart.graph@[cell], direction, Slot::Cell(id as usize));
                if other == cell && way == direction {
                } else {
                    assert(self.chart.slot(other, way) == before.chart.slot(other, way));
                    if let Slot::Cell(next) = before.chart.slot(other, way) {
                        assert(before.chart.linked(other, way));
                    }
                }
            }
        }
        assert forall|k: int| 0 <= k < self.frontier@.len() implies #[trigger] self.frontier@[k]
            == before.visits@ + 1 + k by {
            if k < before.frontier@.len() {
                assert(before.frontier@[k] == before.visits@ + 1 + k);
            }
        }
    }

    /// In a search in breadth, whatever walk the robot could take from the
    /// start, over cells that are no walls: after each of its steps it
    /// either stands on a cell of the chart that lies no deeper than the
    /// steps it has taken, or it has taken more steps than the cell that the
    /// search is looking around lies deep.
    pub proof fn lemma_level_walk(&self, walk: Seq<Direction>, steps: int)
        requires
            self.state(Some(self.location)),
            self.frontier.order == Order::Fifo,
            clear_walk(&self.start@, (0, 0), walk),
            0 <= steps <= walk.len(),
        ensures
            steps > self.chart.depth(self.location as int) || exists|id: int|
                0 <= id < self.chart.len() && #[trigger] self.chart.place(id) == walk_end(
                    (0, 0),
                    walk.take(steps),
                ) && self.chart.depth(id) <= steps,
        decreases steps,
    {
        let turn = self.location as int;
        assert(self.chart.keys@.len() == self.chart.keys.len());
        if steps == 0 {
            assert(walk.take(0) =~= Seq::<Direction>::empty());
            assert(self.chart.trail(0) =~= Seq::<Direction>::empty());
            assert(self.chart.place(0) == walk_end((0, 0), walk.take(0)));
        } else {
            self.lemma_level_walk(walk, steps - 1);
            if steps - 1 > self.chart.depth(turn) {
            } else {
                let from = choose|id: int|
                    0 <= id < self.chart.len() && #[trigger] self.chart.place(id) == walk_end(
                        (0, 0),
                        walk.take(steps - 1),
                    ) && self.chart.depth(id) <= steps - 1;
                let direction = walk[steps - 1];
                let target = walk_end((0, 0), walk.take(steps));
                assert(walk.take(steps) =~= walk.take(steps - 1).push(direction));
                lemma_walk_push((0, 0), walk.take(steps - 1), direction);
                assert(self.start@.cell_at(target) != Cell::Wall);
                if from >= turn {
                    assert(self.chart.depth(turn) <= self.chart.depth(from));
                } else {
                    assert(self.chart.visited(from)) by {
                        if self.frontier@.contains(from as usize) {
                            let k = choose|k: int|
                                0 <= k < self.frontier@.len() && self.frontier@[k]
                                    == from as usize;
                            assert(self.frontier@[k] == turn + 1 + k);
                        }
                    }
                    assert(self.chart.slot(from, direction) != Slot::Unresolved);
                    assert(self.chart.slot(from, direction) != Slot::Blocked);
                    assert(self.chart.linked(from, direction));
                    assert(self.chart.close(from, direction));
                    let next = self.chart.slot(from, direction)->Cell_0;
                    assert(self.chart.place(next as int) == target);
                }
            }
        }
    }

    /// While a search in breadth looks around a cell, it has looked around
    /// every cell with a smaller number.
    pub proof fn lemma_visited_before(&self)
        requires
            self.state(Some(self.location)),
            self.frontier.order == Order::Fifo,
        ensures
            self.chart.visited_before(self.location as int),
    {
        assert forall|id: int| 0 <= id < self.location && id < self.chart.len() implies #[trigger]
            self.chart.visited(id) by {
            if self.frontier@.contains(id as usize) {
                let k = choose|k: int|
                    0 <= k < self.frontier@.len() && self.frontier@[k] == id as usize;
                assert(self.frontier@[k] == self.visits@ + 1 + k);
            }
        }
    }

    /// While a search in breadth looks around a cell, no walk leads the
    /// robot to a finish in fewer steps than one more than that cell lies
    /// deep.
    pub proof fn lemma_level_nearest(&self)
        requires
            self.state(Some(self.location)),
            self.frontier.order == Order::Fifo,
        ensures
            nearest(&self.start@, self.chart.depth(self.location as int) + 1),
    {
        assert forall|walk: Seq<Direction>| #[trigger]
            reaches_finish(&self.start@, walk) implies walk.len() >= self.chart.depth(
            self.location as int,
        ) + 1 by {
            self.lemma_level_walk(walk, walk.len() as int);
            assert(walk.take(walk.len() as int) =~= walk);
            if walk.len() <= self.chart.depth(self.location as int) {
                let id = choose|id: int|
                    0 <= id < self.chart.len() && #[trigger] self.chart.place(id) == walk_end(
                        (0, 0),
                        walk,
                    ) && self.chart.depth(id) <= walk.len();
                if id != 0 {
                    assert(self.start@.cell_at(self.chart.place(id)) == Cell::Open);
                }
            }
        }
    }

    /// A search whose chart holds the parents that it held has, for every
    /// cell, the children that it had.
    pub proof fn lemma_same_parents(&self, before: &Explorer<M>)
        requires
            self.chart.keys == before.chart.keys,
            self.chart.parents == before.chart.parents,
        ensures
            forall|cell: int, rank: int|
                before.chart.children_before(cell, rank) ==> #[trigger] self.chart.children_before(
                    cell,
                    rank,
                ),
            forall|first: Chart, cell: int|
                before.chart.seen_from(&first, cell) ==> #[trigger] self.chart.seen_from(
                    &first,
                    cell,
                ),
    {
        assert forall|cell: int, rank: int|
            before.chart.children_before(cell, rank) implies #[trigger]
            self.chart.children_before(cell, rank) by {
            assert forall|child: int|
                1 <= child < self.chart.len() && #[trigger] self.chart.parent(child)
                    == cell implies self.chart.heading(child).rank() < rank by {
                assert(before.chart.parent(child) == cell);
            }
        }
        assert forall|first: Chart, cell: int|
            before.chart.seen_from(&first, cell) implies #[trigger]
            self.chart.seen_from(&first, cell) by {
            assert forall|id: int| first.len() <= id < self.chart.len() implies #[trigger]
                self.chart.parent(id) == cell by {
                assert(before.chart.parent(id) == cell);
            }
        }
    }

    /// A search in which one slot of the cell under the robot has been
    /// filled, truly, and nothing else has changed, is still in order.
    pub proof fn lemma_kept(&self, before: &Explorer<M>, cell: int, direction: Direction)
        requires
            before.state(Some(before.location)),
            cell == before.location,
            self.chart.wf(),
            self.chart.keys == before.chart.keys,
            self.chart.parents == before.chart.parents,
            before.chart.slot(cell, direction) == Slot::Unresolved,
            self.chart.graph@ == before.chart.graph@.update(
                cell,
                before.chart.graph@[cell].with(direction, self.chart.slot(cell, direction)),
            ),
            self.chart.slot(cell, direction) == Slot::Blocked ==> before.start@.cell_at(
                step(before.chart.place(cell), direction),
            ) == Cell::Wall,
            self.robot == before.robot,
            self.frontier == before.frontier,
            self.location == before.location,
            self.start == before.start,
            self.visits == before.visits,
        ensures
            self.state(Some(self.location)),
    {
        let filled = self.chart.slot(cell, direction);
        lemma_with(before.chart.graph@[cell], direction, filled);
        assert forall|id: int| 0 <= id < self.chart.len() implies self.chart.place(id)
            == before.chart.place(id) by {}
        assert forall|a: int, b: int|
            #![trigger self.chart.parent(a), self.chart.parent(b)]
            1 <= a < b < self.chart.len() && self.chart.parent(a) == self.chart.parent(
                b,
            ) implies self.chart.heading(a).rank() < self.chart.heading(b).rank() by {
            assert(before.chart.parent(a) == before.chart.parent(b));
        }
        assert forall|id: int, way: Direction|
            0 <= id < self.chart.len() && #[trigger] self.chart.slot(id, way)
                == Slot::Blocked implies self.start@.cell_at(step(self.chart.place(id), way))
            == Cell::Wall by {
            if id == cell && way == direction {
            } else {
                assert(before.chart.slot(id, way) == Slot::Blocked);
            }
        }
        assert forall|id: int| 1 <= id < self.chart.len() implies self.start@.cell_at(
            #[trigger] self.chart.place(id),
        ) == Cell::Open by {
            assert(before.start@.cell_at(before.chart.place(id)) == Cell::Open);
        }
        assert forall|id: int| 0 <= id < self.chart.len() implies #[trigger] self.chart.visited(
            id,
        ) || self.frontier@.contains(id as usize) || Some(self.location) == Some(
            id as usize,
        ) by {
            if id != cell {
                assert(before.chart.visited(id) ==> self.chart.visited(id));
            }
        }
        assert forall|k: int| 0 <= k < self.frontier@.len() implies #[trigger] self.frontier@[k]
            < self.chart.len() by {
            assert(before.frontier@[k] < before.chart.len());
        }
        if self.frontier.order == Order::Fifo {
            assert(before.level_order(Some(before.location)));
            assert forall|a: int, b: int|
                #![trigger self.chart.depth(a), self.chart.depth(b)]
                0 <= a <= b < self.chart.len() implies self.chart.depth(a) <= self.chart.depth(
                b,
            ) by {
                assert(before.chart.depth(a) <= before.chart.depth(b));
            }
            assert forall|id: int| 0 <= id < self.chart.len() implies #[trigger]
                self.chart.depth(id) <= self.chart.depth(self.visits@ as int) + 1 by {
                assert(before.chart.depth(id) <= before.chart.depth(before.visits@ as int) + 1);
            }
            assert forall|id: int, way: Direction| 0 <= id < self.chart.len() implies #[trigger]
                self.chart.close(id, way) by {
                assert(before.chart.close(id, way));
                if id == cell && way == direction {
                    if let Slot::Cell(other) = filled {
                        assert(self.chart.linked(cell, direction));
                        assert(before.chart.depth(other as int) <= before.chart.depth(cell) + 1);
                    }
                }
            }
        }
    }

    /// Once every cell of the chart has been looked around, no walk leads
    /// the robot to a finish: the chart holds every cell that can be
    /// reached, and none of them is one.
    pub proof fn lemma_exhausted(&self, walk: Seq<Direction>)
        requires
            self.state(None),
            self.frontier@.len() == 0,
            clear_walk(&self.start@, (0, 0), walk),
        ensures
            self.chart.known(walk_end((0, 0), walk)),
            !reaches_finish(&self.start@, walk),
        decreases walk.len(),
    {
        if walk.len() == 0 {
            assert(self.chart.place(0) == walk_end((0, 0), walk));
        } else {
            let shorter = walk.drop_last();
            assert forall|steps: int| 0 < steps <= shorter.len() implies self.start@.cell_at(
                #[trigger] walk_end((0, 0), shorter.take(steps)),
            ) != Cell::Wall by {
                assert(shorter.take(steps) =~= walk.take(steps));
            }
            self.lemma_exhausted(shorter);
            let from = choose|id: int|
                0 <= id < self.chart.len() && #[trigger] self.chart.place(id) == walk_end(
                    (0, 0),
                    shorter,
                );
            let direction = walk.last();
            let target = walk_end((0, 0), walk);
            assert(walk.take(walk.len() as int) =~= walk);
            assert(self.start@.cell_at(target) != Cell::Wall);
            assert(self.chart.visited(from));
            assert(self.chart.slot(from, direction) != Slot::Unresolved);
            assert(self.chart.slot(from, direction) != Slot::Blocked);
            assert(self.chart.linked(from, direction));
            let other = self.chart.slot(from, direction)->Cell_0;
            assert(self.chart.place(other as int) == target);
            if other != 0 {
                assert(self.start@.cell_at(self.chart.place(other as int)) == Cell::Open);
            }
        }
    }
}

/// The keys are those of the cells that the walk passes, from the cell in
/// which it starts, with the key `(0, 0)`, to the cell in which it ends.
pub open spec fn traces(keys: Seq<Key>, walk: Seq<Direction>) -> bool {
    &&& keys.len() == walk.len() + 1
    &&& forall|steps: int|
        0 <= steps <= walk.len() ==> (#[trigger] keys[steps])@ == walk_end(
            (0, 0),
            walk.take(steps),
        )
}

/// The keys are those of the cells of a walk that leads the robot, over
/// cells that are no walls, to a finish.
pub open spec fn leads_to_finish<M: Maze>(maze: &M, keys: Seq<Key>) -> bool {
    exists|walk: Seq<Direction>| reaches_finish(maze, walk) && traces(keys, walk)
}

/// The keys are those of the trail to the finish on a chart of the maze:
/// of the cells by which the robot, on some search, first reached the
/// finish.
pub open spec fn charted_way<M: Maze>(maze: &M, keys: Seq<Key>) -> bool {
    exists|solution: Solution| #[trigger] solution.solves(maze) && traces(keys, solution.walk())
}

/// The keys are those of a way to a finish without detours: the trail to
/// the finish on a chart of the maze, which leads the robot over cells that
/// are no walls, passes no cell twice, and passes only open cells between
/// the cell in which it starts and the finish on which it ends.
pub open spec fn direct_way<M: Maze>(maze: &M, keys: Seq<Key>) -> bool {
    &&& charted_way(maze, keys)
    &&& leads_to_finish(maze, keys)
    &&& forall|i: int, j: int|
        #![trigger keys[i], keys[j]]
        0 <= i < j < keys.len() ==> keys[i] != keys[j]
    &&& forall|i: int| 0 < i < keys.len() - 1 ==> maze.cell_at((#[trigger] keys[i])@) == Cell::Open
}

/// A path to the finish, as a search leaves it: the number of the finish,
/// and the chart on which the robot has drawn the cells it found, the finish
/// last.
pub struct Solution {
    pub finish: usize,
    pub chart: Chart,
}

impl Solution {
    /// The walk from the start to the finish.
    pub open spec fn walk(&self) -> Seq<Direction> {
        self.chart.trail(self.finish as int)
    }

    /// The solution is one of the maze: its chart leads to a finish of it,
    /// which the robot saw when it had looked, from the parent of the
    /// finish, in the directions before and in none behind: a search ends
    /// with the first finish that the robot sees.
    pub open spec fn solves<M: Maze>(&self, maze: &M) -> bool {
        &&& self.chart.shows_finish(maze, self.finish as int)
        &&& self.chart.looked_before(self.finish as int)
        &&& self.chart.unlooked_after(self.finish as int)
    }

    /// The solution is a shortest one: no walk leads the robot to a finish
    /// in fewer steps than its walk has; its cells are numbered in the
    /// order of their depth; and the robot has looked around every cell
    /// with a smaller number than the parent of the finish, and from none
    /// with a greater.
    pub open spec fn shortest<M: Maze>(&self, maze: &M) -> bool {
        &&& self.chart.levelled()
        &&& nearest(maze, self.walk().len())
        &&& self.chart.visited_before(self.chart.parent(self.finish as int))
        &&& self.chart.untouched_after(self.chart.parent(self.finish as int))
    }

    /// The walk of a solution enters no wall and ends on a finish, so a
    /// robot that is put where the search began and follows it, in a maze
    /// that refuses no step but one into a wall, arrives on the finish.
    pub proof fn lemma_walk<M: Maze>(&self, maze: &M)
        requires
            self.solves(maze),
        ensures
            reaches_finish(maze, self.walk()),
            self.walk().len() >= 1,
            walk_end((0, 0), self.walk()) == self.chart.place(self.finish as int),
    {
        let walk = self.walk();
        let finish = self.finish as int;
        self.chart.lemma_trail_leads(finish);
        assert(self.chart.place(0) != self.chart.place(finish));
        assert(self.chart.trail(0) =~= Seq::<Direction>::empty());
        assert forall|steps: int| 0 < steps <= walk.len() implies maze.cell_at(
            #[trigger] walk_end((0, 0), walk.take(steps)),
        ) != Cell::Wall by {
            let forebear = self.chart.lemma_trail_beginning(finish, steps);
            self.chart.lemma_trail_leads(forebear);
            if forebear < finish {
                assert(maze.cell_at(self.chart.place(forebear)) == Cell::Open);
            }
        }
    }

    /// The keys of the cells on the walk of a solution are those of a way
    /// without detours: the walk follows the steps by which its cells were
    /// first reached, so it comes to no cell twice, and to the finish last.
    pub proof fn lemma_direct<M: Maze>(&self, maze: &M, keys: Seq<Key>)
        requires
            self.solves(maze),
            traces(keys, self.walk()),
        ensures
            direct_way(maze, keys),
    {
        let walk = self.walk();
        let finish = self.finish as int;
        self.lemma_walk(maze);
        assert(self.chart.trail(0) =~= Seq::<Direction>::empty());
        assert forall|i: int, j: int|
            #![trigger keys[i], keys[j]]
            0 <= i < j < keys.len() implies keys[i] != keys[j] by {
            let first = self.chart.lemma_trail_beginning(finish, i);
            let second = self.chart.lemma_trail_beginning(finish, j);
            self.chart.lemma_trail_leads(first);
            self.chart.lemma_trail_leads(second);
            assert(self.chart.depth(first) == i && self.chart.depth(second) == j);
            if first < second {
                assert(self.chart.place(first) != self.chart.place(second));
            } else {
                assert(self.chart.place(second) != self.chart.place(first));
            }
        }
        assert forall|i: int| 0 < i < keys.len() - 1 implies maze.cell_at(
            (#[trigger] keys[i])@,
        ) == Cell::Open by {
            let cell = self.chart.lemma_trail_beginning(finish, i);
            self.chart.lemma_trail_leads(cell);
            assert(self.chart.depth(cell) == i);
            assert(maze.cell_at(self.chart.place(cell)) == Cell::Open);
        }
    }

    /// Replaying a solution leads to the finish. Its walk enters no wall, so
    /// an honest maze refuses none of its steps. A robot that is put where
    /// the search began and has taken all steps but the last sees the
    /// finish in the direction of the last step, and one that has taken all
    /// of them stands on the finish.
    pub proof fn lemma_replay<M: Maze>(&self, start: &M, nearly: &M, there: &M)
        requires
            self.solves(start),
            carried(start, nearly, walk_end((0, 0), self.walk().drop_last())),
            carried(start, there, walk_end((0, 0), self.walk())),
        ensures
            clear_walk(start, (0, 0), self.walk()),
            nearly.cell_at(step((0, 0), self.walk().last())) == Cell::Finish,
            there.cell_at((0, 0)) == Cell::Finish,
    {
        self.lemma_walk(start);
        let walk = self.walk();
        lemma_step_plus(walk_end((0, 0), walk.drop_last()), (0, 0), walk.last());
        assert(plus((0, 0), walk_end((0, 0), walk)) == walk_end((0, 0), walk));
    }

    /// Returns the walk from the start to the finish, one direction per
    /// step.
    pub fn directions(&self) -> (walk: Vec<Direction>)
        ensures
            walk@ == self.walk(),
    {
        self.chart.trail_to(self.finish)
    }

    /// Returns the path from the start to the finish: every cell on the
    /// way, from the first after the start to the finish, each with the
    /// direction in which it lies from the one before.
    pub fn path(&self) -> (path: Vec<(usize, Direction)>)
        ensures
            path@ == path_of(self.chart.parents@, self.finish as int),
    {
        self.chart.parents.path_to_root(self.finish)
    }

    /// Returns the keys of the cells on the way from the start to the
    /// finish, both included.
    pub fn keys(&self) -> (keys: Vec<Key>)
        requires
            self.chart.wf(),
            self.finish < self.chart.len(),
        ensures
            traces(keys@, self.walk()),
    {
        let path = self.chart.parents.path_to_root(self.finish);
        let ghost walk = self.walk();
        let mut keys: Vec<Key> = Vec::new();
        keys.push(self.chart.key(0));
        assert(walk.take(0) =~= Seq::<Direction>::empty());
        let mut hop: usize = 0;
        while hop < path.len()
            invariant
                hop <= path.len(),
                self.chart.wf(),
                self.finish < self.chart.len(),
                walk == self.walk(),
                path@ == path_of(self.chart.parents@, self.finish as int),
                keys@.len() == hop + 1,
                forall|steps: int|
                    0 <= steps <= hop ==> (#[trigger] keys@[steps])@ == walk_end(
                        (0, 0),
                        walk.take(steps),
                    ),
            decreases path.len() - hop,
        {
            proof {
                assert(self.chart.parents.edges@.len() == self.chart.parents.edges.len());
                lemma_path_cells(
                    self.chart.parents@,
                    self.finish as int,
                    hop as int,
                );
                self.chart.lemma_trail_leads(path@[hop as int].0 as int);
            }
            keys.push(self.chart.key(path[hop].0));
            hop += 1;
        }
        keys
    }
}

/// Searches the maze for the finish, taking up the cells that wait in the
/// given order, until the robot sees the finish or no cell waits.
///
/// The solution that is returned leads, over open cells of the maze, from
/// the cell in which the robot started to a finish. On its chart the slot
/// of every parent names its child, and the children of a cell are numbered
/// in the order in which the robot looks: north, east, south, west. `NoPath`
/// is returned only where no walk that enters no wall leads to a finish. A
/// step that the maze refuses ends the search with `Move`, which holds the
/// maze's error and which no reliable maze brings about; so in a reliable
/// maze the search succeeds exactly where a finish is within reach.
pub fn explore<M: Maze>(robot: RobotInternal<M>, order: Order) -> (found: Result<
    Solution,
    SolveError,
>)
    ensures
        found matches Ok(solution) ==> solution.solves(&robot@),
        found matches Ok(solution) ==> (order == Order::Fifo ==> solution.shortest(&robot@)),
        found matches Err(error) ==> !(error is Creation),
        found matches Err(SolveError::NoPath) ==> !finish_within_reach(&robot@),
        found matches Err(SolveError::Move { from, to, source }) ==> source is MoveError
            && !reliable(&robot@),
        found is Ok ==> finish_within_reach(&robot@),
        reliable(&robot@) ==> (found is Ok <==> finish_within_reach(&robot@)),
{
    let mut search = Explorer::new(robot, order);
    loop
        invariant
            search.state(None),
            search.start@ == robot@,
            search.frontier.order == order,
        decreases usize::MAX - search.visits@,
    {
        proof {
            assert(search.chart.keys@.len() == search.chart.keys.len());
        }
        match search.advance() {
            Err(error) => {
                return Err(error);
            },
            Ok(Progress::Found(finish)) => {
                let solution = Solution { finish, chart: search.chart };
                proof {
                    solution.lemma_walk(&robot@);
                }
                return Ok(solution);
            },
            Ok(Progress::Exhausted) => {
                proof {
                    assert forall|walk: Seq<Direction>| !reaches_finish(&robot@, walk) by {
                        if clear_walk(&robot@, (0, 0), walk) {
                            search.lemma_exhausted(walk);
                        }
                    }
                }
                return Err(SolveError::NoPath);
            },
            Ok(Progress::Exploring) => {
                proof {
                    assert(search.chart.keys@.len() == search.chart.keys.len());
                }
            },
        }
    }
}

} // verus!
