use maze_robot::explorer::SolveError;
use maze_robot::solution::dfs_path;
use maze_robot::{solve, Direction, Key, Robot};

const MULTI_BRANCH_A: &str = "\
S F
+ +
  +
+ +";

const MULTI_BRANCH_B: &str = "\
+++++++
+   + F
S +++ +
+     +
+++++++
";

#[test]
fn can_solve_single_path_mazes_adjacent() {
    let act = solve("SF").expect("solution to be found");
    assert_eq!(act, vec![Key(0, 0), Key(1, 0)]);
}

#[test]
fn can_solve_single_path_mazes_corner() {
    let act = solve("S +\n+ F").expect("solution to be found");
    assert_eq!(act, vec![Key(0, 0), Key(1, 0), Key(1, -1), Key(2, -1)]);
}

#[test]
fn can_solve_deadend_path_mazes_small() {
    let act = solve("S F\n+ +").expect("solution to be found");
    assert_eq!(act, vec![Key(0, 0), Key(1, 0), Key(2, 0)]);
}

#[test]
fn can_solve_deadend_path_mazes_branch_a() {
    let act = solve(MULTI_BRANCH_A).expect("solution to be found");
    assert_eq!(act, vec![Key(0, 0), Key(1, 0), Key(2, 0)]);
}

#[test]
fn can_solve_deadend_path_mazes_branch_b() {
    let act = solve(MULTI_BRANCH_B).expect("solution to be found");
    assert_eq!(
        act,
        vec![
            Key(0, 0),
            Key(1, 0),
            Key(1, -1),
            Key(2, -1),
            Key(3, -1),
            Key(4, -1),
            Key(5, -1),
            Key(5, 0),
            Key(5, 1),
            Key(6, 1)
        ]
    );
}

#[test]
fn solve_reports_a_text_without_start() {
    match solve("  F") {
        Err(SolveError::Creation(error)) => assert_eq!(
            error.to_string(),
            "MazeError:CreationError: TextMaze must specify start location w/ 'S'"
        ),
        other => panic!("expected a creation error, got {other:?}"),
    }
}

#[test]
fn solve_reports_a_maze_without_way() {
    assert!(matches!(solve("S+F"), Err(SolveError::NoPath)));
    assert!(matches!(solve("+++\n+S+\n+++"), Err(SolveError::NoPath)));
}

#[test]
fn dfs_path_starts_where_the_robot_stands() {
    let robot = Robot::try_from("F S").expect("maze to be read");
    let act = dfs_path(robot).expect("solution to be found");
    assert_eq!(act, vec![Key(0, 0), Key(-1, 0), Key(-2, 0)]);
}

#[test]
fn compute_in_dir_steps_one_cell() {
    let key = Key(3, -2);
    assert_eq!(key.compute_in_dir(&Direction::North), Key(3, -1));
    assert_eq!(key.compute_in_dir(&Direction::South), Key(3, -3));
    assert_eq!(key.compute_in_dir(&Direction::East), Key(4, -2));
    assert_eq!(key.compute_in_dir(&Direction::West), Key(2, -2));
}

#[test]
fn dead_end_beside_the_start_is_no_part_of_the_way() {
    // north of the start lies a dead end of one cell, east of it the finish
    let keys = solve(" +\nSF").expect("solution to be found");
    assert_eq!(keys, vec![Key(0, 0), Key(1, 0)]);
}

#[test]
fn corridor_gives_three_keys() {
    let keys = solve("S F").expect("solution to be found");
    assert_eq!(keys, vec![Key(0, 0), Key(1, 0), Key(2, 0)]);
}

#[test]
fn no_key_occurs_twice_on_the_way() {
    for text in [
        "S   F\n +++ \n     ",
        "   \n S \n  F",
        "+++++++\n+   + F\nS +++ +\n+     +\n+++++++\n",
    ] {
        let keys = solve(text).expect("solution to be found");
        assert_eq!(keys[0], Key(0, 0));
        for (at, key) in keys.iter().enumerate() {
            assert!(!keys[..at].contains(key), "{key:?} occurs twice in {keys:?}");
        }
        for pair in keys.windows(2) {
            let east = pair[1].0 - pair[0].0;
            let north = pair[1].1 - pair[0].1;
            assert_eq!(east.abs() + north.abs(), 1);
        }
    }
}

#[test]
fn key_is_written_out() {
    assert_eq!(Key(0, 0).to_string(), "(0,0)");
    assert_eq!(Key(3, -1).to_string(), "(3,-1)");
    assert_eq!(Key(-120, 4096).to_string(), "(-120,4096)");
    assert_eq!(
        Key(i128::MIN, i128::MAX).to_string(),
        format!("({},{})", i128::MIN, i128::MAX)
    );
}
