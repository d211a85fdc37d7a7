use maze_robot::direction::{
    CardinalDirection, Direction as Turnable, RelativeDirection, CARD_DIR_ARR, REL_DIR_ARR,
};
use maze_robot::decimal::{digit_char, push_decimal, push_signed};
use maze_robot::lang::TokenErr;
use maze_robot::{Direction, DIR_ARR};

#[test]
fn reverse_swaps_opposites() {
    assert_eq!(Direction::North.reverse(), Direction::South);
    assert_eq!(Direction::South.reverse(), Direction::North);
    assert_eq!(Direction::East.reverse(), Direction::West);
    assert_eq!(Direction::West.reverse(), Direction::East);
}

#[test]
fn reverse_twice_is_the_same() {
    for direction in DIR_ARR {
        assert_eq!(direction.reverse().reverse(), direction);
        assert_ne!(direction.reverse(), direction);
    }
}

#[test]
fn directions_are_looked_at_in_order() {
    assert_eq!(
        DIR_ARR,
        [Direction::North, Direction::East, Direction::South, Direction::West]
    );
    for (rank, direction) in DIR_ARR.iter().enumerate() {
        assert_eq!(direction.index(), rank);
        assert_eq!(Direction::from_index(rank), *direction);
    }
}

#[test]
fn directions_have_names() {
    assert_eq!(Direction::North.name(), "North");
    assert_eq!(Direction::East.name(), "East");
    assert_eq!(Direction::South.name(), "South");
    assert_eq!(Direction::West.name(), "West");
    assert_eq!(CardinalDirection::West.name(), "West");
    assert_eq!(RelativeDirection::Backward.name(), "Backward");
    assert_eq!(RelativeDirection::Forward.name(), "Forward");
    assert_eq!(RelativeDirection::Left.name(), "Left");
    assert_eq!(RelativeDirection::Right.name(), "Right");
}

#[test]
fn cardinal_directions_turn_round() {
    assert_eq!(CardinalDirection::North.reverse(), CardinalDirection::South);
    assert_eq!(CardinalDirection::South.reverse(), CardinalDirection::North);
    assert_eq!(CardinalDirection::East.reverse(), CardinalDirection::West);
    assert_eq!(CardinalDirection::West.reverse(), CardinalDirection::East);
}

#[test]
fn relative_directions_turn_round() {
    assert_eq!(RelativeDirection::Forward.reverse(), RelativeDirection::Backward);
    assert_eq!(RelativeDirection::Backward.reverse(), RelativeDirection::Forward);
    assert_eq!(RelativeDirection::Left.reverse(), RelativeDirection::Right);
    assert_eq!(RelativeDirection::Right.reverse(), RelativeDirection::Left);
}

#[test]
fn from_relative_turns_clockwise() {
    let north = CardinalDirection::North;
    assert_eq!(north.from_relative(RelativeDirection::Forward), CardinalDirection::North);
    assert_eq!(north.from_relative(RelativeDirection::Right), CardinalDirection::East);
    assert_eq!(north.from_relative(RelativeDirection::Backward), CardinalDirection::South);
    assert_eq!(north.from_relative(RelativeDirection::Left), CardinalDirection::West);
    let west = CardinalDirection::West;
    assert_eq!(west.from_relative(RelativeDirection::Forward), CardinalDirection::West);
    assert_eq!(west.from_relative(RelativeDirection::Right), CardinalDirection::North);
    assert_eq!(west.from_relative(RelativeDirection::Backward), CardinalDirection::East);
    assert_eq!(west.from_relative(RelativeDirection::Left), CardinalDirection::South);
}

#[test]
fn turning_backward_is_reversing() {
    for facing in CARD_DIR_ARR {
        assert_eq!(facing.from_relative(RelativeDirection::Backward), facing.reverse());
        for relative in REL_DIR_ARR {
            assert_eq!(
                facing.from_relative(relative).reverse(),
                facing.from_relative(relative.reverse())
            );
        }
        assert_eq!(
            facing
                .from_relative(RelativeDirection::Right)
                .from_relative(RelativeDirection::Left),
            facing
        );
    }
}

#[test]
fn cardinal_directions_count_quarter_turns() {
    for (turns, facing) in CARD_DIR_ARR.iter().enumerate() {
        assert_eq!(facing.index(), turns);
    }
}

#[test]
fn numbers_are_written_in_decimal() {
    for n in [0u128, 7, 10, 99, 100, 1234567890, u128::MAX] {
        let mut text = String::from("n=");
        push_decimal(&mut text, n);
        assert_eq!(text, format!("n={n}"));
    }
    for i in [0i128, -1, 9, -10, 42, i128::MIN, i128::MAX] {
        let mut text = String::new();
        push_signed(&mut text, i);
        assert_eq!(text, format!("{i}"));
    }
    assert_eq!(digit_char(0), '0');
    assert_eq!(digit_char(9), '9');
}

#[test]
fn token_error_is_written_out() {
    assert_eq!(TokenErr::Invalid(17).to_string(), "TokenErr: Invalid token at 17");
    assert_eq!(TokenErr::Invalid(0).to_string(), "TokenErr: Invalid token at 0");
}

#[test]
fn compass_direction_turns_into_its_number() {
    assert_eq!(usize::from(&CardinalDirection::North), 0);
    assert_eq!(usize::from(&CardinalDirection::East), 1);
    assert_eq!(usize::from(CardinalDirection::South), 2);
    assert_eq!(usize::from(CardinalDirection::West), 3);
}
