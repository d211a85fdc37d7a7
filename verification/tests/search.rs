use maze_robot::bfs::find_solution;
use maze_robot::cell_graph::{NeighborSlots, Slot};
use maze_robot::explorer::{explore, Explorer, Progress, SolveError};
use maze_robot::frontier::Order;
use maze_robot::solution::dfs_path;
use maze_robot::{
    Cell, Direction, Key, Maze, MazeError, Robot, RobotInternal, TextMaze, DIR_ARR,
};
use std::cell::RefCell;
use std::rc::Rc;

/// What a robot did to a maze: the directions it looked in and the
/// directions it tried to step in, in order.
#[derive(Default)]
struct Log {
    peeks: Vec<Direction>,
    moves: Vec<Direction>,
}

/// A maze of text that notes down what is done to it, and that can be told
/// to refuse every step from a given one on.
struct WatchedMaze {
    inner: TextMaze,
    log: Rc<RefCell<Log>>,
    refuse_from: Option<usize>,
}

impl WatchedMaze {
    fn new(text: &str) -> (Self, Rc<RefCell<Log>>) {
        let log = Rc::new(RefCell::new(Log::default()));
        let maze = WatchedMaze {
            inner: TextMaze::try_from(text).expect("maze to be read"),
            log: log.clone(),
            refuse_from: None,
        };
        (maze, log)
    }
}

impl Maze for WatchedMaze {
    fn look_dir(&self, direction: Direction) -> Cell {
        self.log.borrow_mut().peeks.push(direction);
        self.inner.look_dir(direction)
    }

    fn move_dir(&mut self, direction: Direction) -> Result<(), MazeError> {
        let taken = self.log.borrow().moves.len();
        self.log.borrow_mut().moves.push(direction);
        match self.refuse_from {
            Some(limit) if taken >= limit => Err(MazeError::MoveError(
                direction,
                String::from("the maze has shifted"),
            )),
            _ => self.inner.move_dir(direction),
        }
    }
}

fn text_robot(text: &str) -> RobotInternal<TextMaze> {
    RobotInternal::new(TextMaze::try_from(text).expect("maze to be read"))
}

const DETOUR: &str = "S   F\n +++ \n     ";

#[test]
fn corridor_is_solved_in_two_steps() {
    let solution = find_solution(text_robot("S F")).expect("solution to be found");
    assert_eq!(solution.directions(), vec![Direction::East, Direction::East]);
    assert_eq!(solution.keys(), vec![Key(0, 0), Key(1, 0), Key(2, 0)]);
    assert_eq!(solution.path(), vec![(1, Direction::East), (2, Direction::East)]);
    assert_eq!(solution.finish, 2);
    assert_eq!(solution.chart.size(), 3);
}

#[test]
fn corridor_is_solved_in_depth_too() {
    let solution = explore(text_robot("S F"), Order::Lifo).expect("solution to be found");
    assert_eq!(solution.directions(), vec![Direction::East, Direction::East]);
    assert_eq!(solution.chart.size(), 3);
}

#[test]
fn dead_end_is_left_out_of_the_path() {
    let (maze, log) = WatchedMaze::new("F S +");
    let solution = find_solution(RobotInternal::new(maze)).expect("solution to be found");
    assert_eq!(solution.directions(), vec![Direction::West, Direction::West]);
    assert_eq!(solution.keys(), vec![Key(0, 0), Key(-1, 0), Key(-2, 0)]);
    // the robot went into the dead end, came back, and went the other way
    assert_eq!(
        log.borrow().moves,
        vec![Direction::East, Direction::West, Direction::West]
    );
}

#[test]
fn enclosed_start_is_exhausted_after_four_peeks() {
    let (maze, log) = WatchedMaze::new("+++\n+S+\n+++");
    let found = find_solution(RobotInternal::new(maze));
    assert!(matches!(found, Err(SolveError::NoPath)));
    assert_eq!(
        log.borrow().peeks,
        vec![Direction::North, Direction::East, Direction::South, Direction::West]
    );
    assert!(log.borrow().moves.is_empty());
}

#[test]
fn breadth_first_finds_the_shortest_way() {
    let solution = find_solution(text_robot(DETOUR)).expect("solution to be found");
    assert_eq!(
        solution.keys(),
        vec![Key(0, 0), Key(1, 0), Key(2, 0), Key(3, 0), Key(4, 0)]
    );
}

#[test]
fn depth_first_may_take_the_long_way() {
    let robot = Robot::try_from(DETOUR).expect("maze to be read");
    let keys = dfs_path(robot).expect("solution to be found");
    assert_eq!(
        keys,
        vec![
            Key(0, 0),
            Key(0, -1),
            Key(0, -2),
            Key(1, -2),
            Key(2, -2),
            Key(3, -2),
            Key(4, -2),
            Key(4, -1),
            Key(4, 0)
        ]
    );
}

#[test]
fn breadth_first_numbers_cells_by_depth() {
    let solution = find_solution(text_robot(DETOUR)).expect("solution to be found");
    let mut last = 0;
    for id in 0..solution.chart.size() {
        let depth = solution.chart.trail_to(id).len();
        assert!(depth >= last, "cell {id} lies above the cell before it");
        assert!(depth <= id, "cell {id} lies deeper than its number");
        last = depth;
    }
}

#[test]
fn replaying_the_walk_reaches_the_finish() {
    for text in ["S F", DETOUR, "F S +", "S +\n+ F"] {
        let solution = find_solution(text_robot(text)).expect("solution to be found");
        let walk = solution.directions();
        let (last, before) = walk.split_last().expect("a walk of at least one step");
        let mut robot = text_robot(text);
        robot.follow(&before.to_vec()).expect("every step to succeed");
        assert_eq!(robot.peek(*last), Cell::Finish);
        robot.go(*last).expect("the last step to succeed");
    }
}

#[test]
fn sensing_twice_shows_the_same() {
    let mut robot = text_robot(DETOUR);
    let first = robot.peek_all();
    assert_eq!(robot.peek_all(), first);
    robot.go(Direction::East).expect("step east");
    robot.go(Direction::West).expect("step back");
    assert_eq!(robot.peek_all(), first);
}

#[test]
fn a_maze_that_shifts_ends_the_search() {
    let (mut maze, log) = WatchedMaze::new("F S +");
    maze.refuse_from = Some(1);
    let found = find_solution(RobotInternal::new(maze));
    match found {
        Err(SolveError::Move { from, to, source }) => {
            assert_eq!((from, to), (1, 2));
            assert!(matches!(source, MazeError::MoveError(Direction::West, _)));
        }
        _ => panic!("expected the search to fail on a refused step"),
    }
    assert_eq!(log.borrow().moves, vec![Direction::East, Direction::West]);
}

#[test]
fn search_goes_on_cell_by_cell() {
    let mut search = Explorer::new(text_robot("S F"), Order::Fifo);
    assert_eq!(search.advance().expect("no step refused"), Progress::Exploring);
    assert_eq!(search.chart.size(), 2);
    assert_eq!(search.location, 0);
    assert_eq!(search.advance().expect("no step refused"), Progress::Found(2));
    assert_eq!(search.location, 1);
}

#[test]
fn search_without_cells_left_is_exhausted() {
    let mut search = Explorer::new(text_robot("S +F"), Order::Lifo);
    assert_eq!(search.advance().expect("no step refused"), Progress::Exploring);
    assert_eq!(search.advance().expect("no step refused"), Progress::Exploring);
    assert_eq!(search.advance().expect("no step refused"), Progress::Exhausted);
    assert_eq!(search.advance().expect("no step refused"), Progress::Exhausted);
    assert_eq!(search.chart.size(), 2);
}

#[test]
fn a_room_is_searched_once() {
    // an open room has many ways round; every cell is put on the chart once
    let found = find_solution(text_robot("   \n S \n   "));
    assert!(matches!(found, Err(SolveError::NoPath)));
    let mut search = Explorer::new(text_robot("   \n S \n   "), Order::Fifo);
    while search.advance().expect("no step refused") == Progress::Exploring {}
    assert_eq!(search.chart.size(), 9);
}

#[test]
fn what_is_on_the_chart_stays() {
    for order in [Order::Fifo, Order::Lifo] {
        let mut search = Explorer::new(text_robot(DETOUR), order);
        loop {
            let keys = search.chart.keys.clone();
            let edges = search.chart.parents.edges.clone();
            let slots = search.chart.graph.cells.clone();
            let progress = search.advance().expect("no step refused");
            assert_eq!(search.chart.keys[..keys.len()], keys[..]);
            assert_eq!(search.chart.parents.edges[..edges.len()], edges[..]);
            for (id, before) in slots.iter().enumerate() {
                let after = search.chart.graph.neighbors(id);
                for direction in DIR_ARR {
                    if before.get(direction) != Slot::Unresolved {
                        assert_eq!(after.get(direction), before.get(direction));
                    }
                }
            }
            if progress != Progress::Exploring {
                break;
            }
        }
    }
}

#[test]
fn a_cell_waits_once() {
    for order in [Order::Fifo, Order::Lifo] {
        let mut search = Explorer::new(text_robot("   \n S \n   "), order);
        let mut taken: Vec<usize> = Vec::new();
        loop {
            let waiting: Vec<usize> = search.frontier.cells.iter().copied().collect();
            for (k, cell) in waiting.iter().enumerate() {
                assert!(!waiting[..k].contains(cell));
                assert!(!taken.contains(cell));
                assert_eq!(search.chart.graph.neighbors(*cell), NeighborSlots::new());
            }
            match search.advance().expect("no step refused") {
                Progress::Exploring => taken.push(search.location),
                _ => break,
            }
        }
        assert_eq!(taken.len(), 9);
    }
}

#[test]
fn finish_is_found_where_it_lies_next_to_the_cell() {
    // the finish lies two steps south of the start: the first cell shows
    // nothing, the second shows the finish
    let mut search = Explorer::new(text_robot("S\n \nF"), Order::Fifo);
    assert_eq!(search.advance().expect("no step refused"), Progress::Exploring);
    assert_eq!(search.location, 0);
    assert_eq!(search.advance().expect("no step refused"), Progress::Found(2));
    assert_eq!(search.location, 1);
    assert_eq!(search.chart.key(2), Key(0, -2));
}

#[test]
fn parent_slot_names_the_child() {
    let solution = find_solution(text_robot("SF")).expect("solution to be found");
    assert_eq!(solution.finish, 1);
    assert_eq!(solution.chart.parents.get(1), Some((0, Direction::East)));
    let start = solution.chart.graph.neighbors(0);
    assert_eq!(start.get(Direction::North), Slot::Blocked);
    assert_eq!(start.get(Direction::East), Slot::Cell(1));
    assert_eq!(start.get(Direction::South), Slot::Unresolved);
    assert_eq!(start.get(Direction::West), Slot::Unresolved);
}

#[test]
fn cells_are_numbered_in_the_order_of_looking() {
    // open cells north, east and south of the start, the finish west of it
    let solution = find_solution(text_robot("+ +\nFS \n+ +")).expect("solution to be found");
    assert_eq!(solution.finish, 4);
    assert_eq!(solution.chart.size(), 5);
    let start = solution.chart.graph.neighbors(0);
    assert_eq!(start.get(Direction::North), Slot::Cell(1));
    assert_eq!(start.get(Direction::East), Slot::Cell(2));
    assert_eq!(start.get(Direction::South), Slot::Cell(3));
    assert_eq!(start.get(Direction::West), Slot::Cell(4));
    assert_eq!(solution.chart.parents.get(0), None);
    assert_eq!(solution.chart.parents.get(1), Some((0, Direction::North)));
    assert_eq!(solution.chart.parents.get(2), Some((0, Direction::East)));
    assert_eq!(solution.chart.parents.get(3), Some((0, Direction::South)));
    assert_eq!(solution.chart.parents.get(4), Some((0, Direction::West)));
    for id in 1..5 {
        assert_eq!(solution.chart.graph.neighbors(id), NeighborSlots::new());
    }
}

#[test]
fn children_of_a_cell_follow_the_order_of_looking() {
    for order in [Order::Fifo, Order::Lifo] {
        let mut search = Explorer::new(text_robot("     \n     \n  S  \n     \n     "), order);
        while search.advance().expect("no step refused") == Progress::Exploring {}
        let edges = &search.chart.parents.edges;
        for (b, later) in edges.iter().enumerate() {
            let Some((parent, heading)) = later else { continue };
            assert_eq!(
                search.chart.graph.neighbors(*parent).get(*heading),
                Slot::Cell(b)
            );
            for earlier in edges[..b].iter().flatten() {
                if earlier.0 == *parent {
                    assert!(earlier.1.index() < heading.index());
                }
            }
        }
    }
}
