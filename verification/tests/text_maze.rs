use maze_robot::text_maze::{TextCell, TextRobot};
use maze_robot::{Cell, Direction, Maze, MazeError, TextMaze};

const WALL_MAZE: &str = "+++\n+S+\n+++";
const TOPL_MAZE: &str = "S+\n++";
const TOPR_MAZE: &str = "+S\n++";
const BOTL_MAZE: &str = "++\nS+";
const BOTR_MAZE: &str = "++\n+S";

const ALL: [Direction; 4] = [Direction::North, Direction::East, Direction::South, Direction::West];

fn moved(state: &str, direction: Direction) -> String {
    let mut maze = TextMaze::try_from(state).expect("maze to create successfully");
    maze.move_dir(direction).expect("state to update succesfully");
    maze.to_string()
}

#[test]
fn test_move_open_up() {
    assert_eq!(moved("  \nS ", Direction::North), "X \nS ");
}

#[test]
fn test_move_open_right() {
    assert_eq!(moved("S \n  ", Direction::East), "SX\n  ");
}

#[test]
fn test_move_open_down() {
    assert_eq!(moved(" S\n  ", Direction::South), " S\n X");
}

#[test]
fn test_move_open_left() {
    assert_eq!(moved("  \n S", Direction::West), "  \nXS");
}

#[test]
fn test_move_invalid() {
    for state in [WALL_MAZE, TOPL_MAZE, TOPR_MAZE, BOTL_MAZE, BOTR_MAZE] {
        for direction in ALL {
            let mut maze = TextMaze::try_from(state).expect("maze to create successfully");
            let before = maze.to_string();
            match maze.move_dir(direction) {
                Ok(_) => panic!(
                    "should have returned error when trying to move {direction:?} in maze:\n{state}"
                ),
                Err(MazeError::MoveError(wanted, shown)) => {
                    assert_eq!(wanted, direction);
                    assert_eq!(shown, before);
                }
                Err(e) => panic!("expected MoveError, got {e:?}"),
            }
            assert_eq!(maze.to_string(), before);
        }
    }
}

#[test]
fn move_into_the_finish_succeeds() {
    assert_eq!(moved("SF", Direction::East), "SX");
}

#[test]
fn maze_is_drawn_with_the_robot() {
    let maze = TextMaze::try_from("   \n S \n   ").expect("maze to create successfully");
    assert_eq!(maze.to_string(), "   \n X \n   ");
}

#[test]
fn robot_starts_at_the_last_start() {
    let maze = TextMaze::try_from("S S").expect("maze to create successfully");
    assert_eq!(maze.to_string(), "S X");
}

#[test]
fn text_without_start_is_refused() {
    match TextMaze::try_from("  F\n+++") {
        Err(MazeError::CreationError(message)) => {
            assert_eq!(message, "TextMaze must specify start location w/ 'S'")
        }
        other => panic!("expected a creation error, got {other:?}"),
    }
    assert!(matches!(TextMaze::try_from(""), Err(MazeError::CreationError(_))));
}

#[test]
fn text_with_uneven_lines_is_refused() {
    for text in ["S \n   \n  ", "S  \n \n", "ab\nS\n"] {
        match TextMaze::try_from(text) {
            Err(MazeError::CreationError(message)) => {
                assert_eq!(message, "TextMaze must have all lines with equal lengths.")
            }
            other => panic!("expected a creation error, got {other:?}"),
        }
    }
}

#[test]
fn uneven_lines_are_reported_before_a_missing_start() {
    match TextMaze::try_from("  \n \n") {
        Err(MazeError::CreationError(message)) => {
            assert_eq!(message, "TextMaze must have all lines with equal lengths.")
        }
        other => panic!("expected a creation error, got {other:?}"),
    }
}

#[test]
fn a_line_break_at_the_end_is_accepted() {
    let maze = TextMaze::try_from("S \n F\n").expect("maze to create successfully");
    assert_eq!(maze.look_dir(Direction::East), Cell::Open);
    assert_eq!(maze.look_dir(Direction::South), Cell::Open);
}

#[test]
fn neighbours_are_found_in_the_text() {
    // the robot stands at position 5 of a text with lines of three cells
    let maze = TextMaze::try_from("   \n S \n   ").expect("maze to create successfully");
    assert_eq!(maze.get_posn_in_dir(Direction::North), Some(1));
    assert_eq!(maze.get_posn_in_dir(Direction::East), Some(6));
    assert_eq!(maze.get_posn_in_dir(Direction::South), Some(9));
    assert_eq!(maze.get_posn_in_dir(Direction::West), Some(4));
}

#[test]
fn neighbours_outside_the_text_are_none() {
    let maze = TextMaze::try_from("S").expect("maze to create successfully");
    for direction in ALL {
        assert_eq!(maze.get_posn_in_dir(direction), None);
        assert_eq!(maze.look_dir(direction), Cell::Wall);
    }
    let maze = TextMaze::try_from("  \n S").expect("maze to create successfully");
    assert_eq!(maze.get_posn_in_dir(Direction::North), Some(1));
    assert_eq!(maze.get_posn_in_dir(Direction::East), None);
    assert_eq!(maze.get_posn_in_dir(Direction::South), None);
    assert_eq!(maze.get_posn_in_dir(Direction::West), Some(3));
}

#[test]
fn the_line_break_is_a_wall() {
    let maze = TextMaze::try_from(" S\n  ").expect("maze to create successfully");
    assert_eq!(maze.get_posn_in_dir(Direction::East), Some(2));
    assert_eq!(maze.look_dir(Direction::East), Cell::Wall);
    let maze = TextMaze::try_from("  \nS ").expect("maze to create successfully");
    assert_eq!(maze.get_posn_in_dir(Direction::West), Some(2));
    assert_eq!(maze.look_dir(Direction::West), Cell::Wall);
}

#[test]
fn characters_stand_for_cells() {
    assert_eq!(Cell::from_char('F'), Cell::Finish);
    assert_eq!(Cell::from_char('+'), Cell::Wall);
    assert_eq!(Cell::from_char('\n'), Cell::Wall);
    assert_eq!(Cell::from_char(' '), Cell::Open);
    assert_eq!(Cell::from_char('S'), Cell::Open);
    assert_eq!(Cell::from_char('x'), Cell::Open);
    assert_eq!(TextCell::from_char(&'F'), TextCell(Cell::Finish));
    assert_eq!(TextCell::from_char(&'+').into_cell(), Cell::Wall);
    assert_eq!(TextCell::from_cell(Cell::Open).into_cell(), Cell::Open);
}

#[test]
fn text_robot_is_made_from_text() {
    let robot = TextRobot::try_from("SF").expect("Robot creates successfully");
    assert_eq!(robot.get_internal().peek(Direction::East), Cell::Finish);
    assert!(matches!(TextRobot::try_from("F"), Err(MazeError::CreationError(_))));
}

#[test]
fn errors_are_written_out() {
    let error = MazeError::CreationError(String::from("no start"));
    assert_eq!(error.to_string(), "MazeError:CreationError: no start");
    let mut maze = TextMaze::try_from("S+").expect("maze to create successfully");
    let error = maze.move_dir(Direction::East).expect_err("a wall to stop the robot");
    assert_eq!(
        error.to_string(),
        "MazeError:MoveError: unable to go East from current location:\n\nX+\n"
    );
}

#[test]
fn characters_turn_into_cells() {
    assert_eq!(Cell::from(&'F'), Cell::Finish);
    assert_eq!(Cell::from(&'+'), Cell::Wall);
    assert_eq!(Cell::from(&'\n'), Cell::Wall);
    assert_eq!(Cell::from(&'S'), Cell::Open);
    assert_eq!(Cell::from(&' '), Cell::Open);
    assert_eq!(TextCell::from(&'F'), TextCell(Cell::Finish));
    assert_eq!(TextCell::from(Cell::Wall), TextCell(Cell::Wall));
    let cell: Cell = TextCell::from(&'x').into();
    assert_eq!(cell, Cell::Open);
}
