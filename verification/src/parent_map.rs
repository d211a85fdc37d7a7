//! The step by which each cell was first reached.

use crate::Direction;
use vstd::prelude::*;

verus! {

/// For each cell but the one the robot started in, the cell from which it
/// was first seen, its parent, and the direction in which it lies from
/// there. An entry, once written, is never changed.
///
/// Cells are numbered in the order in which they are found, so a parent has
/// a smaller number than its child, and following parents from any cell
/// ends, after fewer steps than the cell's number, at a cell without entry.
pub struct ParentMap {
    pub edges: Vec<Option<(usize, Direction)>>,
}

impl View for ParentMap {
    type V = Seq<Option<(usize, Direction)>>;

    open spec fn view(&self) -> Seq<Option<(usize, Direction)>> {
        self.edges@
    }
}

/// The entry of a cell among the given entries: its parent and the
/// direction from the parent to it.
pub open spec fn entry_of(edges: Seq<Option<(usize, Direction)>>, child: int) -> Option<
    (usize, Direction),
> {
    if 0 <= child < edges.len() {
        edges[child]
    } else {
        None
    }
}

/// Every parent among the entries has a smaller number than its child.
pub open spec fn ordered(edges: Seq<Option<(usize, Direction)>>) -> bool {
    forall|child: int|
        0 <= child < edges.len() ==> (#[trigger] edges[child] matches Some(edge) ==> edge.0
            < child)
}

/// The path from the start to a cell: every cell on the way from the cell
/// without parent down to `cell`, each with the direction in which it lies
/// from the one before. The cell without parent is not part of it.
pub open spec fn path_of(edges: Seq<Option<(usize, Direction)>>, cell: int) -> Seq<
    (usize, Direction),
>
    decreases cell,
{
    match entry_of(edges, cell) {
        Some(edge) => if edge.0 < cell {
            path_of(edges, edge.0 as int).push((cell as usize, edge.1))
        } else {
            Seq::empty()
        },
        None => Seq::empty(),
    }
}

/// The directions of the path from the start to a cell.
pub open spec fn trail_of(edges: Seq<Option<(usize, Direction)>>, cell: int) -> Seq<Direction> {
    path_of(edges, cell).map_values(|hop: (usize, Direction)| hop.1)
}

/// The cell that is reached from `cell` by going to the parent `up` times,
/// or as often as there is a parent to go to.
pub open spec fn forebear_of(edges: Seq<Option<(usize, Direction)>>, cell: int, up: nat) -> int
    decreases up,
{
    if up == 0 {
        cell
    } else {
        match entry_of(edges, cell) {
            Some(edge) => forebear_of(edges, edge.0 as int, (up - 1) as nat),
            None => cell,
        }
    }
}

/// Following parents from a cell takes no more steps than the cell's number.
pub proof fn lemma_path_bounded(edges: Seq<Option<(usize, Direction)>>, cell: int)
    ensures
        path_of(edges, cell).len() <= if cell >= 0 {
            cell
        } else {
            0
        },
    decreases cell,
{
    match entry_of(edges, cell) {
        Some(edge) => {
            if edge.0 < cell {
                lemma_path_bounded(edges, edge.0 as int);
            }
        },
        None => {},
    }
}

/// Every cell on the path to a cell has a number from 1 to the cell's own,
/// and the path ends with the cell itself.
pub proof fn lemma_path_cells(edges: Seq<Option<(usize, Direction)>>, cell: int, hop: int)
    requires
        0 <= hop < path_of(edges, cell).len(),
        edges.len() <= usize::MAX,
    ensures
        1 <= path_of(edges, cell)[hop].0 <= cell,
        path_of(edges, cell).last().0 == cell,
        trail_of(edges, path_of(edges, cell)[hop].0 as int) == trail_of(edges, cell).take(hop + 1),
    decreases cell,
{
    match entry_of(edges, cell) {
        Some(edge) => {
            if edge.0 < cell {
                let shorter = path_of(edges, edge.0 as int);
                lemma_path_step(edges, cell, edge.0, edge.1);
                if hop < shorter.len() {
                    lemma_path_cells(edges, edge.0 as int, hop);
                    assert(trail_of(edges, cell).take(hop + 1) =~= trail_of(
                        edges,
                        edge.0 as int,
                    ).take(hop + 1));
                } else {
                    assert(trail_of(edges, cell).take(hop + 1) =~= trail_of(edges, cell));
                }
            }
        },
        None => {},
    }
}

/// The path to a cell with an entry is the path to its parent and one hop
/// more; the trail goes with it.
pub proof fn lemma_path_step(
    edges: Seq<Option<(usize, Direction)>>,
    cell: int,
    parent: usize,
    direction: Direction,
)
    requires
        entry_of(edges, cell) == Some((parent, direction)),
        parent < cell,
    ensures
        path_of(edges, cell) == path_of(edges, parent as int).push((cell as usize, direction)),
        trail_of(edges, cell) == trail_of(edges, parent as int).push(direction),
{
    assert(trail_of(edges, cell) =~= trail_of(edges, parent as int).push(direction));
}

/// Entries that are added behind do not change the path to a cell before.
pub proof fn lemma_path_kept(
    edges: Seq<Option<(usize, Direction)>>,
    longer: Seq<Option<(usize, Direction)>>,
    cell: int,
)
    requires
        edges.len() <= longer.len(),
        forall|k: int| 0 <= k < edges.len() ==> edges[k] == longer[k],
        cell < edges.len(),
    ensures
        path_of(longer, cell) == path_of(edges, cell),
        trail_of(longer, cell) == trail_of(edges, cell),
    decreases cell,
{
    match entry_of(edges, cell) {
        Some(edge) => {
            if edge.0 < cell {
                lemma_path_kept(edges, longer, edge.0 as int);
            }
        },
        None => {},
    }
}

impl ParentMap {
    /// The entry of a cell.
    pub open spec fn entry(&self, child: int) -> Option<(usize, Direction)> {
        entry_of(self@, child)
    }

    /// Every parent has a smaller number than its child.
    pub open spec fn wf(&self) -> bool {
        ordered(self@)
    }

    /// A map without entries.
    pub fn new() -> (map: Self)
        ensures
            map@.len() == 0,
            map.wf(),
    {
        ParentMap { edges: Vec::new() }
    }

    /// Records the parent of a cell and the direction from the parent to
    /// it. Where the cell has an entry already, that entry stays: the first
    /// one counts.
    pub fn record(&mut self, child: usize, parent: usize, direction: Direction)
        requires
            old(self).wf(),
            parent < child,
        ensures
            final(self).wf(),
            final(self)@.len() == if child < old(self)@.len() {
                old(self)@.len() as int
            } else {
                child + 1
            },
            forall|cell: int|
                #![trigger final(self)@[cell]]
                0 <= cell < final(self)@.len() && cell != child ==> final(self)@[cell]
                    == old(self).entry(cell),
            final(self).entry(child as int) == if old(self).entry(child as int) is Some {
                old(self).entry(child as int)
            } else {
                Some((parent, direction))
            },
    {
        while self.edges.len() <= child
            invariant
                self.wf(),
                old(self)@.len() <= self@.len(),
                self@.len() == old(self)@.len() || (old(self)@.len() <= child && self@.len()
                    <= child + 1),
                forall|cell: int| 0 <= cell < self@.len() ==> self@[cell] == old(self).entry(cell),
            decreases child + 1 - self.edges.len(),
        {
            self.edges.push(None);
        }
        if self.edges[child].is_none() {
            self.edges[child] = Some((parent, direction));
        }
    }

    /// Returns the parent of a cell and the direction from the parent to
    /// it, or `None` for a cell without entry.
    pub fn get(&self, child: usize) -> (edge: Option<(usize, Direction)>)
        ensures
            edge == self.entry(child as int),
    {
        if child < self.edges.len() {
            self.edges[child]
        } else {
            None
        }
    }

    /// Returns the path from the start to a cell: the cells on the way, from
    /// the first after the start to `cell` itself, each with the direction
    /// in which it lies from the one before. It is found by following
    /// parents from `cell` and turning the sequence round.
    pub fn path_to_root(&self, cell: usize) -> (path: Vec<(usize, Direction)>)
        ensures
            path@ == path_of(self@, cell as int),
            path@.len() <= cell,
    {
        let mut climbed: Vec<(usize, Direction)> = Vec::new();
        let mut at = cell;
        loop
            invariant
                at <= cell,
                path_of(self@, cell as int) == path_of(self@, at as int) + climbed@.reverse(),
            ensures
                path_of(self@, cell as int) == climbed@.reverse(),
            decreases at,
        {
            match self.get(at) {
                Some(edge) => {
                    if edge.0 < at {
                        proof {
                            let longer = climbed@.push((at, edge.1));
                            assert(longer.reverse() =~= seq![(at, edge.1)] + climbed@.reverse());
                            assert(path_of(self@, at as int) + climbed@.reverse() =~= path_of(
                                self@,
                                edge.0 as int,
                            ) + longer.reverse());
                        }
                        climbed.push((at, edge.1));
                        at = edge.0;
                    } else {
                        assert(path_of(self@, at as int) + climbed@.reverse()
                            =~= climbed@.reverse());
                        break ;
                    }
                },
                None => {
                    assert(path_of(self@, at as int) + climbed@.reverse() =~= climbed@.reverse());
                    break ;
                },
            }
        }
        let mut path: Vec<(usize, Direction)> = Vec::new();
        let mut left = climbed.len();
        while left > 0
            invariant
                left <= climbed.len(),
                path@ == climbed@.reverse().take(climbed.len() - left),
            decreases left,
        {
            left -= 1;
            path.push(climbed[left]);
            assert(climbed@.reverse().take(climbed.len() - left) =~= climbed@.reverse().take(
                climbed.len() - left - 1,
            ).push(climbed@[left as int]));
        }
        proof {
            assert(climbed@.reverse().take(climbed.len() as int) =~= climbed@.reverse());
            lemma_path_bounded(self@, cell as int);
        }
        path
    }
}

} // verus!
