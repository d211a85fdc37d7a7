use maze_robot::cell_graph::{
    find_direction_to_neighbor, CellGraph, Conflict, NeighborSlots, Slot,
};
use maze_robot::chart::Chart;
use maze_robot::frontier::{FrontierQueue, Order};
use maze_robot::navigator::{count_shared, navigate};
use maze_robot::parent_map::ParentMap;
use maze_robot::{Cell, Direction, Key, MazeError, RobotInternal, TextMaze};

#[test]
fn slots_start_unresolved() {
    let slots = NeighborSlots::new();
    for rank in 0..4 {
        assert_eq!(slots.get(Direction::from_index(rank)), Slot::Unresolved);
    }
}

#[test]
fn setting_a_slot_changes_that_slot_only() {
    let mut slots = NeighborSlots::new();
    slots.set(Direction::South, Slot::Cell(7));
    assert_eq!(slots.get(Direction::South), Slot::Cell(7));
    assert_eq!(slots.get(Direction::North), Slot::Unresolved);
    assert_eq!(slots.get(Direction::East), Slot::Unresolved);
    assert_eq!(slots.get(Direction::West), Slot::Unresolved);
}

#[test]
fn neighbour_is_found_in_the_first_slot_that_holds_it() {
    let slots = NeighborSlots {
        north: Slot::Blocked,
        east: Slot::Cell(3),
        south: Slot::Cell(5),
        west: Slot::Cell(3),
    };
    assert_eq!(find_direction_to_neighbor(&slots, 3), Some(Direction::East));
    assert_eq!(find_direction_to_neighbor(&slots, 5), Some(Direction::South));
    assert_eq!(find_direction_to_neighbor(&slots, 4), None);
    assert_eq!(find_direction_to_neighbor(&NeighborSlots::new(), 0), None);
}

#[test]
fn register_fills_an_unresolved_slot() {
    let mut graph = CellGraph::new();
    assert_eq!(graph.add_cell(), 0);
    assert_eq!(graph.add_cell(), 1);
    assert_eq!(graph.len(), 2);
    assert_eq!(graph.register(0, Direction::East, Slot::Cell(1)), Ok(()));
    assert_eq!(graph.register(0, Direction::North, Slot::Blocked), Ok(()));
    let slots = graph.neighbors(0);
    assert_eq!(slots.east, Slot::Cell(1));
    assert_eq!(slots.north, Slot::Blocked);
    assert_eq!(slots.south, Slot::Unresolved);
    assert_eq!(graph.neighbors(1), NeighborSlots::new());
}

#[test]
fn register_takes_the_same_outcome_twice() {
    let mut graph = CellGraph::new();
    graph.add_cell();
    assert_eq!(graph.register(0, Direction::West, Slot::Blocked), Ok(()));
    assert_eq!(graph.register(0, Direction::West, Slot::Blocked), Ok(()));
    assert_eq!(graph.neighbors(0).west, Slot::Blocked);
}

#[test]
fn register_refuses_another_outcome() {
    let mut graph = CellGraph::new();
    graph.add_cell();
    assert_eq!(graph.register(0, Direction::West, Slot::Blocked), Ok(()));
    assert_eq!(
        graph.register(0, Direction::West, Slot::Cell(4)),
        Err(Conflict {
            cell: 0,
            direction: Direction::West,
            known: Slot::Blocked,
            offered: Slot::Cell(4)
        })
    );
    assert_eq!(graph.neighbors(0).west, Slot::Blocked);
}

#[test]
fn fifo_hands_out_the_oldest_cell() {
    let mut queue = FrontierQueue::new(Order::Fifo);
    assert_eq!(queue.dequeue(), None);
    queue.enqueue(4);
    queue.enqueue(2);
    queue.enqueue(9);
    assert_eq!(queue.len(), 3);
    assert_eq!(queue.dequeue(), Some(4));
    assert_eq!(queue.dequeue(), Some(2));
    queue.enqueue(1);
    assert_eq!(queue.dequeue(), Some(9));
    assert_eq!(queue.dequeue(), Some(1));
    assert_eq!(queue.dequeue(), None);
}

#[test]
fn lifo_hands_out_the_newest_cell() {
    let mut queue = FrontierQueue::new(Order::Lifo);
    queue.enqueue(4);
    queue.enqueue(2);
    queue.enqueue(9);
    assert_eq!(queue.dequeue(), Some(9));
    queue.enqueue(1);
    assert_eq!(queue.dequeue(), Some(1));
    assert_eq!(queue.dequeue(), Some(2));
    assert_eq!(queue.dequeue(), Some(4));
    assert_eq!(queue.dequeue(), None);
    assert_eq!(queue.len(), 0);
}

#[test]
fn first_parent_counts() {
    let mut parents = ParentMap::new();
    parents.record(1, 0, Direction::East);
    parents.record(2, 1, Direction::South);
    parents.record(2, 0, Direction::West);
    assert_eq!(parents.get(0), None);
    assert_eq!(parents.get(1), Some((0, Direction::East)));
    assert_eq!(parents.get(2), Some((1, Direction::South)));
    assert_eq!(parents.get(3), None);
}

#[test]
fn parents_may_be_recorded_out_of_order() {
    let mut parents = ParentMap::new();
    parents.record(5, 2, Direction::North);
    assert_eq!(parents.get(5), Some((2, Direction::North)));
    assert_eq!(parents.get(4), None);
    parents.record(2, 0, Direction::West);
    assert_eq!(
        parents.path_to_root(5),
        vec![(2, Direction::West), (5, Direction::North)]
    );
}

#[test]
fn path_to_root_runs_from_the_start() {
    let mut parents = ParentMap::new();
    parents.record(1, 0, Direction::East);
    parents.record(2, 0, Direction::South);
    parents.record(3, 1, Direction::East);
    parents.record(4, 3, Direction::North);
    assert_eq!(parents.path_to_root(0), vec![]);
    assert_eq!(parents.path_to_root(2), vec![(2, Direction::South)]);
    assert_eq!(
        parents.path_to_root(4),
        vec![(1, Direction::East), (3, Direction::East), (4, Direction::North)]
    );
    assert_eq!(parents.path_to_root(9), vec![]);
}

#[test]
fn path_to_root_is_no_longer_than_the_map() {
    let mut parents = ParentMap::new();
    for child in 1..50 {
        parents.record(child, child - 1, Direction::East);
    }
    for child in 0..50 {
        assert_eq!(parents.path_to_root(child).len(), child);
    }
}

/// A chart of two branches: cell 1 east of the start and cell 3 east of
/// that, cell 2 west of the start and cell 4 south of that.
fn forked_chart() -> Chart {
    let mut chart = Chart::new();
    assert_eq!(chart.discover(0, Direction::East), 1);
    assert_eq!(chart.discover(0, Direction::West), 2);
    assert_eq!(chart.discover(1, Direction::East), 3);
    assert_eq!(chart.discover(2, Direction::South), 4);
    chart
}

#[test]
fn chart_keeps_keys_and_trails() {
    let chart = forked_chart();
    assert_eq!(chart.size(), 5);
    assert_eq!(chart.key(0), Key(0, 0));
    assert_eq!(chart.key(3), Key(2, 0));
    assert_eq!(chart.key(4), Key(-1, -1));
    assert_eq!(chart.find(Key(-1, 0)), Some(2));
    assert_eq!(chart.find(Key(0, -1)), None);
    assert_eq!(chart.trail_to(0), vec![]);
    assert_eq!(chart.trail_to(4), vec![Direction::West, Direction::South]);
    assert_eq!(chart.graph.neighbors(0).east, Slot::Cell(1));
    assert_eq!(chart.graph.neighbors(1).west, Slot::Unresolved);
}

#[test]
fn chart_notes_walls_and_known_cells() {
    let mut chart = forked_chart();
    chart.block(3, Direction::East);
    chart.link(3, Direction::West, 1);
    assert_eq!(chart.graph.neighbors(3).east, Slot::Blocked);
    assert_eq!(chart.graph.neighbors(3).west, Slot::Cell(1));
    assert_eq!(chart.size(), 5);
}

#[test]
fn route_to_the_same_cell_is_empty() {
    assert_eq!(forked_chart().plan_route(3, 3), vec![]);
}

#[test]
fn route_to_a_neighbour_is_one_step() {
    let mut chart = forked_chart();
    assert_eq!(chart.plan_route(0, 1), vec![Direction::East]);
    // a link that is no step of a trail is taken too
    chart.link(3, Direction::West, 1);
    assert_eq!(chart.plan_route(3, 1), vec![Direction::West]);
}

#[test]
fn route_between_branches_goes_back_and_forth() {
    let chart = forked_chart();
    assert_eq!(
        chart.plan_route(3, 4),
        vec![
            Direction::West,
            Direction::West,
            Direction::West,
            Direction::South
        ]
    );
    assert_eq!(chart.plan_route(3, 2), vec![Direction::West; 3]);
    assert_eq!(chart.plan_route(4, 0), vec![Direction::North, Direction::East]);
    assert_eq!(chart.plan_route(1, 3), vec![Direction::East]);
}

#[test]
fn route_down_a_branch_follows_the_trail() {
    let chart = forked_chart();
    assert_eq!(chart.plan_route(0, 4), vec![Direction::West, Direction::South]);
    assert_eq!(chart.plan_route(0, 3), vec![Direction::East, Direction::East]);
}

#[test]
fn shared_steps_are_counted() {
    let north = Direction::North;
    let east = Direction::East;
    assert_eq!(count_shared(&vec![], &vec![north]), 0);
    assert_eq!(count_shared(&vec![north, east], &vec![north, north]), 1);
    assert_eq!(count_shared(&vec![north, east], &vec![north, east, east]), 2);
    assert_eq!(count_shared(&vec![east], &vec![north, east]), 0);
}

#[test]
fn navigator_walks_the_robot_between_branches() {
    let maze = TextMaze::try_from("+   S  \n+++ +++").expect("maze to be read");
    let mut robot = RobotInternal::new(maze);
    let chart = forked_chart();
    robot.follow(&vec![Direction::East, Direction::East]).expect("walk to cell 3");
    assert_eq!(navigate(&mut robot, &chart, 3, 4).expect("no step refused"), 4);
    // the robot stands in the cell south-west of the start
    assert_eq!(robot.peek(Direction::North), Cell::Open);
    assert_eq!(robot.peek(Direction::East), Cell::Wall);
    assert_eq!(robot.peek(Direction::West), Cell::Wall);
}

#[test]
fn navigator_reports_a_refused_step() {
    let maze = TextMaze::try_from("+  +S  \n+ +++++").expect("maze to be read");
    let mut robot = RobotInternal::new(maze);
    let chart = forked_chart();
    robot.follow(&vec![Direction::East, Direction::East]).expect("walk to cell 3");
    match navigate(&mut robot, &chart, 3, 4) {
        Err(MazeError::MoveError(wanted, _)) => assert_eq!(wanted, Direction::West),
        other => panic!("expected a refused step west, got {other:?}"),
    }
    // the robot stopped at the start, in front of the wall
    assert_eq!(robot.peek(Direction::West), Cell::Wall);
    assert_eq!(robot.peek(Direction::East), Cell::Open);
}
