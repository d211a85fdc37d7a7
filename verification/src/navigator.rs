//! Walking the robot over the chart from the cell it stands in to another.

use crate::cell_graph::find_direction_to_neighbor;
use crate::chart::Chart;
use crate::maze::{carried, Maze, MazeError};
use crate::parent_map::path_of;
use crate::place::{
    lemma_retrace_take, lemma_shared, lemma_walk_concat, lemma_walk_plus, lemma_walk_push,
    lemma_walk_retrace, minus, plus, retrace, shared, step, walk_end,
};
use crate::robot::{clear_walk, RobotInternal};
use crate::{Cell, Direction};
use vstd::prelude::*;

verus! {

impl Chart {
    /// The walk that the robot takes from one cell of the chart to another.
    ///
    /// No step where the two are the same cell, and one step where the
    /// chart shows the second next to the first. Otherwise the robot goes
    /// back along the trail of the first cell as far as the two trails
    /// differ, and from there forward along the trail of the second.
    pub open spec fn route(&self, from: int, to: int) -> Seq<Direction> {
        if from == to {
            Seq::empty()
        } else {
            match self.graph@[from].way_to(to as usize) {
                Some(direction) => seq![direction],
                None => {
                    let back = self.trail(from);
                    let forth = self.trail(to);
                    let common = shared(back, forth) as int;
                    retrace(back.skip(common)) + forth.skip(common)
                },
            }
        }
    }

    /// The error is that of a step of the route between the two cells,
    /// which the maze has refused.
    pub open spec fn refused_between(&self, from: int, to: int, error: MazeError) -> bool {
        exists|done: int|
            0 <= done < self.route(from, to).len() && error.refuses(
                #[trigger] self.route(from, to)[done],
            )
    }

    /// The route between two cells leads from the first to the second, and
    /// enters no place but those of cells on the chart.
    pub proof fn lemma_route(&self, from: int, to: int)
        requires
            self.wf(),
            0 <= from < self.len(),
            0 <= to < self.len(),
        ensures
            walk_end(self.place(from), self.route(from, to)) == self.place(to),
            forall|steps: int|
                0 < steps <= self.route(from, to).len() ==> self.known(
                    #[trigger] walk_end(self.place(from), self.route(from, to).take(steps)),
                ),
    {
        let route = self.route(from, to);
        let here = self.place(from);
        assert(self.keys@.len() == self.keys.len());
        if from == to {
        } else if self.graph@[from].way_to(to as usize) is Some {
            let direction = self.graph@[from].way_to(to as usize)->0;
            assert(self.linked(from, direction));
            assert(route =~= Seq::<Direction>::empty().push(direction));
            lemma_walk_push(here, Seq::<Direction>::empty(), direction);
            assert forall|steps: int| 0 < steps <= route.len() implies self.known(
                #[trigger] walk_end(here, route.take(steps)),
            ) by {
                assert(route.take(steps) =~= route);
                assert(self.place(to) == walk_end(here, route));
            }
        } else {
            let back = self.trail(from);
            let forth = self.trail(to);
            lemma_shared(back, forth);
            let common = shared(back, forth) as int;
            let climb = back.skip(common);
            let descent = forth.skip(common);
            let fork = walk_end((0, 0), back.take(common));
            self.lemma_trail_leads(from);
            self.lemma_trail_leads(to);
            assert(back =~= back.take(common) + climb);
            assert(forth =~= forth.take(common) + descent);
            lemma_walk_concat((0, 0), back.take(common), climb);
            lemma_walk_concat((0, 0), forth.take(common), descent);
            lemma_walk_retrace(fork, climb);
            lemma_walk_concat(here, retrace(climb), descent);
            assert forall|steps: int| 0 < steps <= route.len() implies self.known(
                #[trigger] walk_end(here, route.take(steps)),
            ) by {
                if steps <= climb.len() {
                    assert(route.take(steps) =~= retrace(climb).take(steps));
                    lemma_retrace_take(fork, climb, steps);
                    let kept = climb.take(climb.len() - steps);
                    assert(back.take(back.len() - steps) =~= back.take(common) + kept);
                    lemma_walk_concat((0, 0), back.take(common), kept);
                    let forebear = self.lemma_trail_beginning(from, back.len() - steps);
                    self.lemma_trail_leads(forebear);
                    assert(self.place(forebear) == walk_end(here, route.take(steps)));
                } else {
                    let further = steps - climb.len();
                    let taken = descent.take(further);
                    assert(route.take(steps) =~= retrace(climb) + taken);
                    lemma_walk_concat(here, retrace(climb), taken);
                    assert(forth.take(common + further) =~= forth.take(common) + taken);
                    lemma_walk_concat((0, 0), forth.take(common), taken);
                    let forebear = self.lemma_trail_beginning(to, common + further);
                    self.lemma_trail_leads(forebear);
                    assert(self.place(forebear) == walk_end(here, route.take(steps)));
                }
            }
        }
    }

    /// Returns the trail of a cell: the directions of the steps that lead
    /// from the start to it, each the step by which a cell on the way was
    /// first reached.
    pub fn trail_to(&self, cell: usize) -> (trail: Vec<Direction>)
        ensures
            trail@ == self.trail(cell as int),
    {
        let path = self.parents.path_to_root(cell);
        let mut trail: Vec<Direction> = Vec::new();
        let mut hop: usize = 0;
        while hop < path.len()
            invariant
                hop <= path.len(),
                path@ == path_of(self.parents@, cell as int),
                trail@ == self.trail(cell as int).take(hop as int),
            decreases path.len() - hop,
        {
            trail.push(path[hop].1);
            assert(self.trail(cell as int).take(hop + 1) =~= self.trail(cell as int).take(
                hop as int,
            ).push(path@[hop as int].1));
            hop += 1;
        }
        assert(self.trail(cell as int).take(hop as int) =~= self.trail(cell as int));
        trail
    }

    /// Plans the walk from one cell of the chart to another.
    pub fn plan_route(&self, from: usize, to: usize) -> (plan: Vec<Direction>)
        requires
            from < self.graph@.len(),
        ensures
            plan@ == self.route(from as int, to as int),
    {
        let mut plan: Vec<Direction> = Vec::new();
        if from == to {
            return plan;
        }
        let slots = self.graph.neighbors(from);
        match find_direction_to_neighbor(&slots, to) {
            Some(direction) => {
                plan.push(direction);
                assert(plan@ =~= seq![direction]);
                plan
            },
            None => {
                let back = self.trail_to(from);
                let forth = self.trail_to(to);
                let common = count_shared(&back, &forth);
                let ghost climb = back@.skip(common as int);
                let ghost descent = forth@.skip(common as int);
                let mut left = back.len();
                while left > common
                    invariant
                        common <= left <= back.len(),
                        climb == back@.skip(common as int),
                        plan@ == retrace(climb).take(back.len() - left),
                    decreases left,
                {
                    left -= 1;
                    plan.push(back[left].reverse());
                    assert(retrace(climb).take(back.len() - left) =~= retrace(climb).take(
                        back.len() - left - 1,
                    ).push(back@[left as int].opposite()));
                }
                assert(retrace(climb).take(climb.len() as int) =~= retrace(climb));
                let mut next = common;
                while next < forth.len()
                    invariant
                        common <= next <= forth.len(),
                        descent == forth@.skip(common as int),
                        plan@ == retrace(climb) + descent.take(next - common),
                    decreases forth.len() - next,
                {
                    plan.push(forth[next]);
                    assert(descent.take(next + 1 - common) =~= descent.take(next - common).push(
                        forth@[next as int],
                    ));
                    assert(retrace(climb) + descent.take(next + 1 - common) =~= (retrace(climb)
                        + descent.take(next - common)).push(forth@[next as int]));
                    next += 1;
                }
                assert(descent.take(descent.len() as int) =~= descent);
                plan
            },
        }
    }
}

/// Counts the steps that two walks have in common at their beginning.
pub fn count_shared(a: &Vec<Direction>, b: &Vec<Direction>) -> (common: usize)
    ensures
        common == shared(a@, b@),
        common <= a.len(),
        common <= b.len(),
{
    let mut common: usize = 0;
    assert(a@.skip(0) =~= a@ && b@.skip(0) =~= b@);
    while common < a.len() && common < b.len() && a[common] == b[common]
        invariant
            common <= a.len(),
            common <= b.len(),
            shared(a@, b@) == common + shared(a@.skip(common as int), b@.skip(common as int)),
        decreases a.len() - common,
    {
        assert(a@.skip(common as int).drop_first() =~= a@.skip(common + 1));
        assert(b@.skip(common as int).drop_first() =~= b@.skip(common + 1));
        common += 1;
    }
    common
}

/// Walks the robot from the cell `location`, in which it stands, to the cell
/// `target`, along the route that the chart gives, and returns the cell in
/// which it then stands.
///
/// The walk stops at the first step that the maze refuses, and the maze's
/// error for that step is returned. In an honest maze no step of a route
/// whose cells are no walls is refused.
pub fn navigate<M: Maze>(
    robot: &mut RobotInternal<M>,
    chart: &Chart,
    location: usize,
    target: usize,
) -> (arrived: Result<usize, MazeError>)
    requires
        chart.wf(),
        location < chart.len(),
        target < chart.len(),
    ensures
        arrived matches Ok(at) ==> at == target && carried(
            &old(robot)@,
            &final(robot)@,
            minus(chart.place(target as int), chart.place(location as int)),
        ),
        arrived is Ok ==> clear_walk(
            &old(robot)@,
            (0, 0),
            chart.route(location as int, target as int),
        ),
        arrived matches Err(error) ==> exists|done: int|
            0 <= done < chart.route(location as int, target as int).len() && carried(
                &old(robot)@,
                &final(robot)@,
                #[trigger] walk_end(
                    (0, 0),
                    chart.route(location as int, target as int).take(done),
                ),
            ) && error.refuses(chart.route(location as int, target as int)[done]),
        final(robot)@.honest() == old(robot)@.honest(),
        old(robot)@.honest() && clear_walk(
            &old(robot)@,
            (0, 0),
            chart.route(location as int, target as int),
        ) ==> arrived is Ok,
{
    let plan = chart.plan_route(location, target);
    proof {
        chart.lemma_route(location as int, target as int);
        lemma_walk_plus((0, 0), chart.place(location as int), plan@);
        assert(plus((0, 0), chart.place(location as int)) == chart.place(location as int));
    }
    match robot.follow(&plan) {
        Ok(()) => Ok(target),
        Err(error) => Err(error),
    }
}

} // verus!
