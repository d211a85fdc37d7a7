//! A maze written as text.

use crate::maze::{reliable, Maze, MazeError};
use crate::place::{plus, step};
use crate::robot::RobotInternal;
use crate::{Cell, Direction};
use vstd::prelude::*;
use vstd::std_specs::iter::IteratorSpec;
use vstd::string::StringExecFns;

verus! {

/// `String::push` of the standard library appends one character to the end
/// of the string and changes nothing else of it.
pub assume_specification[ String::push ](text: &mut String, ch: char)
    ensures
        final(text)@ == old(text)@.push(ch),
;

/// The length of the first line of a text: the number of characters before
/// its first line break, or of all its characters where it has none.
pub open spec fn line_width(text: Seq<char>) -> int
    decreases text.len(),
{
    if text.len() == 0 || text[0] == '\n' {
        0
    } else {
        1 + line_width(text.drop_first())
    }
}

/// Every line break of the text ends a line as long as the first.
pub open spec fn even_lines(text: Seq<char>) -> bool {
    forall|i: int|
        0 <= i < text.len() && text[i] == '\n' ==> (i + 1) % (line_width(text) + 1) == 0
}

/// The position of the last `S` in the text, or -1 where it has none.
pub open spec fn start_of(text: Seq<char>) -> int
    decreases text.len(),
{
    if text.len() == 0 {
        -1
    } else if text.last() == 'S' {
        text.len() - 1
    } else {
        start_of(text.drop_last())
    }
}

/// Why a text is no maze: a line break does not end a line as long as the
/// first, or else the text holds no `S`. `None` where the text is a maze.
pub open spec fn fault_of(text: Seq<char>) -> Option<Seq<char>> {
    if !even_lines(text) {
        Some("TextMaze must have all lines with equal lengths."@)
    } else if !text.contains('S') {
        Some("TextMaze must specify start location w/ 'S'"@)
    } else {
        None
    }
}

/// How far in the text one step in a direction leads, for lines of the given
/// width: one character east or west, one line and its line break north or
/// south.
pub open spec fn drift(width: int, direction: Direction) -> int {
    match direction {
        Direction::North => -(width + 1),
        Direction::South => width + 1,
        Direction::East => 1,
        Direction::West => -1,
    }
}

/// How far in the text a place lies from the place `(0, 0)`.
pub open spec fn reach(width: int, place: (int, int)) -> int {
    place.0 - place.1 * (width + 1)
}

/// The first line ends at the first line break, and nowhere before.
pub proof fn lemma_line_width(text: Seq<char>)
    ensures
        0 <= line_width(text) <= text.len(),
        forall|i: int| 0 <= i < line_width(text) ==> text[i] != '\n',
        line_width(text) < text.len() ==> text[line_width(text)] == '\n',
    decreases text.len(),
{
    if !(text.len() == 0 || text[0] == '\n') {
        let rest = text.drop_first();
        lemma_line_width(rest);
        assert forall|i: int| 0 <= i < line_width(text) implies text[i] != '\n' by {
            if i > 0 {
                assert(text[i] == rest[i - 1]);
            }
        }
        if line_width(text) < text.len() {
            assert(text[line_width(text)] == rest[line_width(rest)]);
        }
    }
}

/// A position before which no line break stands, and which holds one or is
/// the end of the text, is the length of the first line.
pub proof fn lemma_line_width_is(text: Seq<char>, width: int)
    requires
        0 <= width <= text.len(),
        forall|i: int| 0 <= i < width ==> text[i] != '\n',
        width < text.len() ==> text[width] == '\n',
    ensures
        line_width(text) == width,
{
    lemma_line_width(text);
    if line_width(text) < width {
        assert(text[line_width(text)] != '\n');
    }
}

/// A position that holds an `S` with none behind it is the last `S`.
pub proof fn lemma_start_is(text: Seq<char>, start: int)
    requires
        0 <= start < text.len(),
        text[start] == 'S',
        forall|i: int| start < i < text.len() ==> text[i] != 'S',
    ensures
        start_of(text) == start,
    decreases text.len(),
{
    if text.last() != 'S' {
        let shorter = text.drop_last();
        assert(shorter[start] == text[start]);
        assert forall|i: int| start < i < shorter.len() implies shorter[i] != 'S' by {
            assert(shorter[i] == text[i]);
        }
        lemma_start_is(shorter, start);
    }
}

/// Where a text holds no `S`, `start_of` is -1.
pub proof fn lemma_no_start(text: Seq<char>)
    requires
        forall|i: int| 0 <= i < text.len() ==> text[i] != 'S',
    ensures
        start_of(text) == -1,
        !text.contains('S'),
    decreases text.len(),
{
    if text.len() > 0 {
        let shorter = text.drop_last();
        assert forall|i: int| 0 <= i < shorter.len() implies shorter[i] != 'S' by {
            assert(shorter[i] == text[i]);
        }
        lemma_no_start(shorter);
    }
}

/// One step further on the grid is one drift further in the text.
pub proof fn lemma_reach_step(width: int, place: (int, int), direction: Direction)
    ensures
        reach(width, plus(place, step((0, 0), direction))) == reach(width, place) + drift(
            width,
            direction,
        ),
        reach(width, step((0, 0), direction)) == drift(width, direction),
        reach(width, (0, 0)) == 0,
{
    assert((place.1 + 1) * (width + 1) == place.1 * (width + 1) + (width + 1))
        by (nonlinear_arith);
    assert((place.1 - 1) * (width + 1) == place.1 * (width + 1) - (width + 1))
        by (nonlinear_arith);
    assert(1 * (width + 1) == width + 1 && (-1) * (width + 1) == -(width + 1) && 0 * (width + 1)
        == 0) by (nonlinear_arith);
}

/// The maze is the one that the text describes, with the robot at its start.
pub open spec fn reads(maze: &TextMaze, text: Seq<char>) -> bool {
    &&& maze.chars() == text
    &&& maze.loc() == start_of(text)
    &&& maze.width() == line_width(text)
}

/// A maze given as a text in which `S` marks where the robot starts, `F` the
/// finish and `+` a wall; every other character but the line break is an open
/// cell. Whatever lies outside the text is wall.
///
/// The maze keeps the text, the position in it of the cell the robot stands
/// in, and the length of the first line. One step east or west leads to the
/// next or the previous character, one step south or north one line and its
/// line break further or back.
#[derive(Debug)]
pub struct TextMaze {
    chars: Vec<char>,
    loc: usize,
    width: usize,
}

impl TextMaze {
    /// What holds of every maze of text: the robot stands on a character of
    /// the text that is no wall, and the first line is no longer than the
    /// text.
    #[verifier::type_invariant]
    pub closed spec fn sound(&self) -> bool {
        &&& self.loc < self.chars.len()
        &&& Cell::of_char(self.chars[self.loc as int]) != Cell::Wall
        &&& self.width <= self.chars.len()
    }

    /// A sound maze of text is reliable, the robot stands on a character of
    /// its text, and the text is no longer than a machine can hold.
    pub proof fn lemma_sound(&self)
        requires
            self.sound(),
        ensures
            reliable(self),
            0 <= self.loc() < self.chars().len(),
            0 <= self.width() <= self.chars().len(),
            self.chars().len() <= usize::MAX,
    {
        lemma_reach_step(self.width(), (0, 0), Direction::North);
        assert(self.chars@.len() == self.chars.len());
    }

    /// The text of the maze.
    pub closed spec fn chars(&self) -> Seq<char> {
        self.chars@
    }

    /// The position in the text of the cell the robot stands in.
    pub closed spec fn loc(&self) -> int {
        self.loc as int
    }

    /// The length of the first line of the text.
    pub closed spec fn width(&self) -> int {
        self.width as int
    }

    /// The position in the text of the cell next to the robot's in the given
    /// direction, unless that lies outside the text.
    pub open spec fn neighbour(&self, direction: Direction) -> Option<usize> {
        let at = self.loc() + drift(self.width(), direction);
        if 0 <= at < self.chars().len() {
            Some(at as usize)
        } else {
            None
        }
    }

    /// The text of the maze with an `X` for the cell the robot stands in.
    pub open spec fn drawing(&self) -> Seq<char> {
        self.chars().update(self.loc(), 'X')
    }

    /// Reads a maze from its text.
    ///
    /// The robot starts at the last `S` of the text. The text is refused when
    /// a line break does not end a line as long as the first, or else when it
    /// holds no `S`.
    pub fn try_from(value: &str) -> (made: Result<TextMaze, MazeError>)
        ensures
            made is Ok <==> fault_of(value@) is None,
            made matches Ok(maze) ==> reads(&maze, value@) && reliable(&maze) && maze.cell_at(
                (0, 0),
            ) == Cell::Open,
            made matches Err(error) ==> {
                &&& error matches MazeError::CreationError(message)
                &&& Some(message@) == fault_of(value@)
            },
    {
        broadcast use vstd::string::group_string_axioms;

        let mut chars: Vec<char> = Vec::new();
        let mut loc: Option<usize> = None;
        let mut width: Option<usize> = None;
        let mut rest = value.chars();
        loop
            invariant
                rest.obeys_prophetic_iter_laws(),
                chars@ + rest.remaining() == value@,
                width is None ==> forall|i: int| 0 <= i < chars.len() ==> value@[i] != '\n',
                width matches Some(w) ==> {
                    &&& w < chars.len()
                    &&& value@[w as int] == '\n'
                    &&& forall|i: int| 0 <= i < w ==> value@[i] != '\n'
                    &&& forall|i: int|
                        0 <= i < chars.len() && value@[i] == '\n' ==> (i + 1) % (w + 1) == 0
                },
                loc is None ==> forall|i: int| 0 <= i < chars.len() ==> value@[i] != 'S',
                loc matches Some(l) ==> {
                    &&& l < chars.len()
                    &&& value@[l as int] == 'S'
                    &&& forall|i: int| l < i < chars.len() ==> value@[i] != 'S'
                },
            ensures
                chars@ == value@,
            decreases value@.len() - chars@.len(),
        {
            match rest.next() {
                Some(chr) => {
                    let idx = chars.len();
                    assert(value@[idx as int] == chr) by {
                        assert(value@[idx as int] == (chars@ + rest.remaining().insert(
                            0,
                            chr,
                        ))[idx as int]);
                    }
                    chars.push(chr);
                    let count = chars.len();
                    if chr == 'S' {
                        loc = Some(idx);
                    } else if chr == '\n' {
                        match width {
                            Some(w) => {
                                if count % (w + 1) != 0 {
                                    proof {
                                        lemma_line_width_is(value@, w as int);
                                    }
                                    return Err(
                                        MazeError::CreationError(
                                            String::from_str(
                                                "TextMaze must have all lines with equal lengths.",
                                            ),
                                        ),
                                    );
                                }
                            },
                            None => {
                                assert((idx + 1) % (idx + 1) == 0) by (nonlinear_arith)
                                    requires
                                        idx >= 0,
                                ;
                                width = Some(idx);
                            },
                        }
                    }
                },
                None => {
                    assert(chars@ =~= chars@ + rest.remaining());
                    break ;
                },
            }
        }
        proof {
            match width {
                Some(w) => {
                    lemma_line_width_is(value@, w as int);
                },
                None => {
                    lemma_line_width_is(value@, value@.len() as int);
                },
            }
        }
        let start = match loc {
            Some(l) => l,
            None => {
                proof {
                    lemma_no_start(value@);
                }
                return Err(
                    MazeError::CreationError(
                        String::from_str("TextMaze must specify start location w/ 'S'"),
                    ),
                );
            },
        };
        proof {
            lemma_start_is(value@, start as int);
            lemma_reach_step(line_width(value@), (0, 0), Direction::North);
        }
        let line = match width {
            Some(w) => w,
            None => chars.len(),
        };
        Ok(TextMaze { chars, loc: start, width: line })
    }

    /// Returns the position in the text of the cell next to the robot's in
    /// the given direction, or `None` where that lies outside the text.
    pub fn get_posn_in_dir(&self, direction: Direction) -> (posn: Option<usize>)
        ensures
            posn == self.neighbour(direction),
    {
        proof {
            use_type_invariant(self);
        }
        match direction {
            Direction::North => {
                if self.loc <= self.width {
                    None
                } else {
                    Some(self.loc - self.width - 1)
                }
            },
            Direction::South => {
                if self.width >= self.chars.len() - 1 - self.loc {
                    None
                } else {
                    Some(self.loc + self.width + 1)
                }
            },
            Direction::East => {
                if self.loc + 1 >= self.chars.len() {
                    None
                } else {
                    Some(self.loc + 1)
                }
            },
            Direction::West => {
                if self.loc == 0 {
                    None
                } else {
                    Some(self.loc - 1)
                }
            },
        }
    }

    /// Draws the maze: its text, with an `X` where the robot stands.
    pub fn to_string(&self) -> (text: String)
        ensures
            text@ == self.drawing(),
    {
        proof {
            use_type_invariant(self);
        }
        let mut text = String::new();
        let mut idx: usize = 0;
        while idx < self.chars.len()
            invariant
                idx <= self.chars.len(),
                self.loc < self.chars.len(),
                text@ == self.drawing().take(idx as int),
            decreases self.chars.len() - idx,
        {
            if idx == self.loc {
                text.push('X');
            } else {
                text.push(self.chars[idx]);
            }
            assert(self.drawing().take(idx + 1) =~= self.drawing().take(idx as int).push(
                self.drawing()[idx as int],
            ));
            idx += 1;
        }
        assert(self.drawing().take(idx as int) =~= self.drawing());
        text
    }
}

impl Maze for TextMaze {
    /// The cell that the character at the place stands for; a wall where the
    /// place lies outside the text.
    open spec fn cell_at(&self, place: (int, int)) -> Cell {
        let at = self.loc() + reach(self.width(), place);
        if 0 <= at < self.chars().len() {
            Cell::of_char(self.chars()[at])
        } else {
            Cell::Wall
        }
    }

    /// A maze of text refuses no step but one into a wall.
    open spec fn honest(&self) -> bool {
        true
    }

    fn look_dir(&self, direction: Direction) -> (cell: Cell) {
        proof {
            use_type_invariant(self);
            lemma_reach_step(self.width(), (0, 0), direction);
        }
        match self.get_posn_in_dir(direction) {
            Some(pos) => Cell::from_char(self.chars[pos]),
            None => Cell::Wall,
        }
    }

    fn move_dir(&mut self, direction: Direction) -> (moved: Result<(), MazeError>)
        ensures
            moved matches Err(error) ==> {
                &&& error matches MazeError::MoveError(wanted, state)
                &&& wanted == direction
                &&& state@ == old(self).drawing()
            },
            final(self).chars() == old(self).chars(),
            final(self).width() == old(self).width(),
            moved is Ok ==> final(self).loc() == old(self).loc() + drift(
                old(self).width(),
                direction,
            ),
            moved is Err ==> final(self).loc() == old(self).loc(),
    {
        proof {
            use_type_invariant(&*self);
            lemma_reach_step(self.width(), (0, 0), direction);
        }
        let target = match self.get_posn_in_dir(direction) {
            Some(pos) => {
                match Cell::from_char(self.chars[pos]) {
                    Cell::Wall => None,
                    _ => Some(pos),
                }
            },
            None => None,
        };
        match target {
            Some(pos) => {
                let ghost before = *self;
                self.loc = pos;
                proof {
                    assert forall|place: (int, int)| #[trigger]
                        self.cell_at(place) == before.cell_at(
                            plus(place, step((0, 0), direction)),
                        ) by {
                        lemma_reach_step(self.width(), place, direction);
                    }
                }
                Ok(())
            },
            None => Err(MazeError::MoveError(direction, self.to_string())),
        }
    }
}

/// A cell as a character of a maze's text stands for it.
#[derive(Clone, Copy, Debug, PartialEq, Eq, Structural)]
pub struct TextCell(pub Cell);

impl TextCell {
    /// Reads a character of a maze's text: `F` is the finish, `+` and the
    /// line break are walls, every other character is an open cell.
    pub fn from_char(value: &char) -> (cell: Self)
        ensures
            cell.0 == Cell::of_char(*value),
    {
        TextCell(Cell::from_char(*value))
    }

    /// Wraps a cell.
    pub fn from_cell(value: Cell) -> (cell: Self)
        ensures
            cell.0 == value,
    {
        TextCell(value)
    }

    /// Unwraps the cell.
    pub fn into_cell(self) -> (cell: Cell)
        ensures
            cell == self.0,
    {
        self.0
    }
}

impl vstd::std_specs::convert::FromSpecImpl<&char> for TextCell {
    open spec fn obeys_from_spec() -> bool {
        true
    }

    /// What the character stands for in a maze's text.
    open spec fn from_spec(value: &char) -> TextCell {
        TextCell(Cell::of_char(*value))
    }
}

impl From<&char> for TextCell {
    /// Reads a character of a maze's text.
    fn from(value: &char) -> (cell: TextCell) {
        TextCell::from_char(value)
    }
}

impl vstd::std_specs::convert::FromSpecImpl<Cell> for TextCell {
    open spec fn obeys_from_spec() -> bool {
        true
    }

    /// The cell, wrapped.
    open spec fn from_spec(value: Cell) -> TextCell {
        TextCell(value)
    }
}

impl From<Cell> for TextCell {
    /// Wraps a cell.
    fn from(value: Cell) -> (cell: TextCell) {
        TextCell(value)
    }
}

impl vstd::std_specs::convert::FromSpecImpl<TextCell> for Cell {
    open spec fn obeys_from_spec() -> bool {
        true
    }

    /// The cell that was wrapped.
    open spec fn from_spec(value: TextCell) -> Cell {
        value.0
    }
}

impl From<TextCell> for Cell {
    /// Unwraps the cell.
    fn from(value: TextCell) -> (cell: Cell) {
        value.0
    }
}

/// A robot in a maze of text, ready for a search.
pub struct TextRobot(pub RobotInternal<TextMaze>);

impl TextRobot {
    /// Reads a maze from its text and puts a robot where the text says.
    ///
    /// Fails, with the error of `TextMaze::try_from`, on every text that is
    /// no maze, and on no other.
    pub fn try_from(value: &str) -> (made: Result<TextRobot, MazeError>)
        ensures
            made is Ok <==> fault_of(value@) is None,
            made matches Ok(robot) ==> reads(&robot.0@, value@) && reliable(&robot.0@)
                && robot.0@.cell_at((0, 0)) == Cell::Open,
            made matches Err(error) ==> {
                &&& error matches MazeError::CreationError(message)
                &&& Some(message@) == fault_of(value@)
            },
    {
        match TextMaze::try_from(value) {
            Ok(maze) => Ok(TextRobot(RobotInternal::new(maze))),
            Err(error) => Err(error),
        }
    }

    /// Returns the robot itself, which looks and steps.
    pub fn get_internal(&self) -> (internal: &RobotInternal<TextMaze>)
        ensures
            *internal == self.0,
    {
        &self.0
    }
}

} // verus!
