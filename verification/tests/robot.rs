use maze_robot::{Cell, Direction, MazeError, Robot, RobotInternal, TextMaze};

const WALL_MAZE: &str = "+++\n+S+\n+++";
const OPEN_MAZE: &str = "   \n S \n   ";
const FNSH_MAZE: &str = "SF";
const TOPL_MAZE: &str = "S \n  ";
const TOPR_MAZE: &str = " S\n  ";
const BOTL_MAZE: &str = "  \nS ";
const BOTR_MAZE: &str = "  \n S";

const ALL: [Direction; 4] = [Direction::North, Direction::East, Direction::South, Direction::West];

fn make_robot(maze: &str) -> Robot {
    Robot::try_from(maze).expect("Robot creates successfully")
}

fn seen(maze: &str) -> [Cell; 4] {
    let rob = make_robot(maze);
    [
        rob.peek(Direction::North),
        rob.peek(Direction::East),
        rob.peek(Direction::South),
        rob.peek(Direction::West),
    ]
}

#[test]
fn test_peek_wall() {
    assert_eq!(seen(WALL_MAZE), [Cell::Wall, Cell::Wall, Cell::Wall, Cell::Wall]);
}

#[test]
fn test_peek_open() {
    assert_eq!(seen(OPEN_MAZE), [Cell::Open, Cell::Open, Cell::Open, Cell::Open]);
}

#[test]
fn test_peek_topl_corner() {
    assert_eq!(seen(TOPL_MAZE), [Cell::Wall, Cell::Open, Cell::Open, Cell::Wall]);
}

#[test]
fn test_peek_topr_corner() {
    assert_eq!(seen(TOPR_MAZE), [Cell::Wall, Cell::Wall, Cell::Open, Cell::Open]);
}

#[test]
fn test_peek_botl_corner() {
    assert_eq!(seen(BOTL_MAZE), [Cell::Open, Cell::Open, Cell::Wall, Cell::Wall]);
}

#[test]
fn test_peek_botr_corner() {
    assert_eq!(seen(BOTR_MAZE), [Cell::Open, Cell::Wall, Cell::Wall, Cell::Open]);
}

#[test]
fn test_peek_finish() {
    let rob = make_robot(FNSH_MAZE);
    assert_eq!(rob.peek(Direction::East), Cell::Finish);
}

#[test]
fn test_peek_all() {
    let rob = make_robot(TOPL_MAZE);
    assert_eq!(
        rob.peek_all(),
        [
            (Cell::Wall, Direction::North),
            (Cell::Open, Direction::East),
            (Cell::Open, Direction::South),
            (Cell::Wall, Direction::West)
        ]
    );
}

#[test]
fn test_go_open() {
    for direction in ALL {
        let mut rob = make_robot(OPEN_MAZE);
        rob.go(direction).expect("an open cell to let the robot in");
    }
}

#[test]
fn test_go_wall() {
    for direction in ALL {
        let mut rob = make_robot(WALL_MAZE);
        assert!(rob.go(direction).is_err());
        assert_eq!(rob.to_string(), "Robot state:\n+++\n+X+\n+++");
    }
}

#[test]
fn test_render() {
    let rob = make_robot(OPEN_MAZE);
    assert_eq!(rob.to_string(), "Robot state:\n   \n X \n   ");
}

#[test]
fn go_moves_the_robot() {
    let mut rob = make_robot(OPEN_MAZE);
    rob.go(Direction::North).expect("step north");
    assert_eq!(rob.to_string(), "Robot state:\n X \n S \n   ");
    assert_eq!(rob.peek(Direction::North), Cell::Wall);
    assert_eq!(rob.peek(Direction::South), Cell::Open);
}

#[test]
fn internal_robot_looks_and_steps() {
    let maze = TextMaze::try_from("S F").expect("maze to be read");
    let mut rob = RobotInternal::new(maze);
    assert_eq!(rob.peek(Direction::East), Cell::Open);
    assert_eq!(rob.peek_all()[3], (Cell::Wall, Direction::West));
    rob.go(Direction::East).expect("step east");
    assert_eq!(rob.peek(Direction::East), Cell::Finish);
    assert!(rob.go(Direction::North).is_err());
    assert_eq!(rob.peek(Direction::East), Cell::Finish);
}

#[test]
fn follow_walks_step_by_step() {
    let maze = TextMaze::try_from("S  \n + \n  F").expect("maze to be read");
    let mut rob = RobotInternal::new(maze);
    let walk = vec![Direction::East, Direction::East, Direction::South];
    rob.follow(&walk).expect("every step to succeed");
    assert_eq!(rob.peek(Direction::South), Cell::Finish);
}

#[test]
fn follow_stops_at_the_first_refusal() {
    let maze = TextMaze::try_from("S  \n + \n  F").expect("maze to be read");
    let mut rob = RobotInternal::new(maze);
    let walk = vec![Direction::East, Direction::South, Direction::East];
    assert!(rob.follow(&walk).is_err());
    // the robot has taken the first step and no other
    assert_eq!(rob.peek(Direction::West), Cell::Open);
    assert_eq!(rob.peek(Direction::South), Cell::Wall);
    assert_eq!(rob.peek(Direction::East), Cell::Open);
}

#[test]
fn refused_step_shows_direction_and_maze() {
    let mut robot = make_robot("S+\n  ");
    match robot.go(Direction::East) {
        Err(MazeError::MoveError(wanted, shown)) => {
            assert_eq!(wanted, Direction::East);
            assert_eq!(shown, "X+\n  ");
        }
        other => panic!("expected a refused step, got {other:?}"),
    }
    // the robot stands where it stood
    robot.go(Direction::South).expect("step south");
}
