//! The textual form of a grid, written: a box drawing of the nine blocks.

use std::borrow::Cow;
use vstd::prelude::*;
use crate::grid::board::{Board, cell_at, in_grid, in_range, lemma_coordinates};
use crate::grid::digit::{Cell, Digit};
use crate::grid::Grid;

verus! {

/// What [`Generator::generate`] returns. Drawing cannot fail.
pub type GeneratorResult = Result<String, GeneratorError>;

/// The error of a [`GeneratorResult`].
pub type GeneratorError = Cow<'static, str>;

/// `count` times the character `character`.
pub open spec fn repeated(character: char, count: nat) -> Seq<char> {
    Seq::new(count, |i: int| character)
}

/// The character that stands for a cell: its numeral if it is known, `0`
/// otherwise.
pub open spec fn cell_char(cell: Cell) -> char {
    match cell {
        Cell::Known(value) => (value + 48) as char,
        Cell::Unknown(_) => '0',
    }
}

/// Every known cell of the board holds a value that one decimal digit can
/// show.
pub open spec fn printable(board: Board) -> bool {
    forall|x: int, y: int|
        in_grid(x, y) ==> match #[trigger] cell_at(board, x, y) {
            Cell::Known(value) => value < 10,
            Cell::Unknown(_) => true,
        }
}

/// A board of numerals from one to nine can be drawn.
pub proof fn lemma_in_range_is_printable(board: Board)
    requires
        in_range(board),
    ensures
        printable(board),
{
    assert forall|x: int, y: int| in_grid(x, y) implies match #[trigger] cell_at(board, x, y) {
        Cell::Known(value) => value < 10,
        Cell::Unknown(_) => true,
    } by {
        assert(cell_at(board, x, y).in_range());
    }
}

/// The line above the drawing.
pub open spec fn upper_line_text() -> Seq<char> {
    seq!['.'] + repeated('_', 29) + seq!['.']
}

/// The first `blocks` blocks of the blank line that opens a band.
pub open spec fn spacer_blocks(blocks: nat) -> Seq<char>
    decreases blocks,
{
    if blocks == 0 {
        Seq::empty()
    } else {
        spacer_blocks((blocks - 1) as nat) + repeated(' ', 9) + seq!['|']
    }
}

/// The blank line that opens a band, with the line breaks around it.
pub open spec fn spacer_text() -> Seq<char> {
    seq!['\n', '|'] + spacer_blocks(3) + seq!['\n']
}

/// The first `blocks` blocks of the line that closes a band.
pub open spec fn line_spacer_blocks(blocks: nat) -> Seq<char>
    decreases blocks,
{
    if blocks == 0 {
        Seq::empty()
    } else {
        line_spacer_blocks((blocks - 1) as nat) + repeated('_', 9) + seq!['|']
    }
}

/// The line that closes a band.
pub open spec fn line_spacer_text() -> Seq<char> {
    seq!['|'] + line_spacer_blocks(3)
}

/// The first `cells` cells of row `y` inside the block column `grid_x`, each
/// followed by a space.
pub open spec fn cells_text(board: Board, grid_x: int, y: int, cells: nat) -> Seq<char>
    decreases cells,
{
    if cells == 0 {
        Seq::empty()
    } else {
        cells_text(board, grid_x, y, (cells - 1) as nat) + seq![
            cell_char(cell_at(board, 3 * grid_x + cells - 1, y)),
            ' ',
        ]
    }
}

/// The first `blocks` blocks of row `y`, each closed by a bar.
pub open spec fn blocks_text(board: Board, y: int, blocks: nat) -> Seq<char>
    decreases blocks,
{
    if blocks == 0 {
        Seq::empty()
    } else {
        blocks_text(board, y, (blocks - 1) as nat) + cells_text(board, blocks - 1, y, 3) + seq![
            ' ',
            '|',
            ' ',
            ' ',
        ]
    }
}

/// The line of row `y`.
pub open spec fn row_text(board: Board, y: int) -> Seq<char> {
    seq!['|', ' ', ' '] + blocks_text(board, y, 3) + seq!['\n']
}

/// The first `rows` rows of band `grid_y`.
pub open spec fn rows_text(board: Board, grid_y: int, rows: nat) -> Seq<char>
    decreases rows,
{
    if rows == 0 {
        Seq::empty()
    } else {
        rows_text(board, grid_y, (rows - 1) as nat) + row_text(board, 3 * grid_y + rows - 1)
    }
}

/// The first `bands` bands of the drawing: each a blank line, its three rows
/// and a closing line.
pub open spec fn bands_text(board: Board, bands: nat) -> Seq<char>
    decreases bands,
{
    if bands == 0 {
        Seq::empty()
    } else {
        bands_text(board, (bands - 1) as nat) + spacer_text() + rows_text(board, bands - 1, 3)
            + line_spacer_text()
    }
}

/// The drawing of the board.
pub open spec fn rendered(board: Board) -> Seq<char> {
    upper_line_text() + bands_text(board, 3)
}

/// The writer of the textual form of a grid.
pub struct Generator;

impl Generator {
    /// A generator.
    pub fn new() -> (result: Self) {
        Self {}
    }

    /// True when the grid can be drawn: it has its nine blocks of nine
    /// digits, and every known digit is below ten.
    pub fn can_generate(&self, grid: &Grid) -> (drawable: bool)
        ensures
            drawable == (grid.well_formed() && printable(grid@)),
    {
        if !grid.is_well_formed() {
            return false;
        }
        for x in 0..9usize
            invariant
                grid.well_formed(),
                forall|x1: int, y1: int|
                    0 <= x1 < x && 0 <= y1 < 9 ==> match #[trigger] cell_at(grid@, x1, y1) {
                        Cell::Known(value) => value < 10,
                        Cell::Unknown(_) => true,
                    },
        {
            for y in 0..9usize
                invariant
                    x < 9,
                    grid.well_formed(),
                    forall|x1: int, y1: int|
                        0 <= x1 < x && 0 <= y1 < 9 ==> match #[trigger] cell_at(grid@, x1, y1) {
                            Cell::Known(value) => value < 10,
                            Cell::Unknown(_) => true,
                        },
                    forall|y1: int|
                        0 <= y1 < y ==> match #[trigger] cell_at(grid@, x as int, y1) {
                            Cell::Known(value) => value < 10,
                            Cell::Unknown(_) => true,
                        },
            {
                if let Digit::Known(value) = grid.get_digit(x, y) {
                    if *value >= 10 {
                        assert(cell_at(grid@, x as int, y as int) == Cell::Known(*value));
                        return false;
                    }
                }
            }
        }
        true
    }

    /// Draws the grid: a line above, then three bands of three rows, the
    /// blocks separated by bars. An undetermined cell is drawn as `0`.
    pub fn generate(&self, grid: &Grid) -> (result: GeneratorResult)
        requires
            grid.well_formed(),
            printable(grid@),
        ensures
            result is Ok,
            result->Ok_0@ == rendered(grid@),
    {
        let mut result = String::new();
        self.add_upper_line_spacer(&mut result);
        for grid_y in 0..3usize
            invariant
                grid.well_formed(),
                printable(grid@),
                result@ == upper_line_text() + bands_text(grid@, grid_y as nat),
        {
            let ghost before_band = result@;
            self.add_spacer(&mut result);
            for subgrid_y in 0..3usize
                invariant
                    grid_y < 3,
                    grid.well_formed(),
                    printable(grid@),
                    result@ == before_band + spacer_text() + rows_text(
                        grid@,
                        grid_y as int,
                        subgrid_y as nat,
                    ),
            {
                let ghost before_row = result@;
                result.push('|');
                result.push(' ');
                result.push(' ');
                for grid_x in 0..3usize
                    invariant
                        grid_y < 3,
                        subgrid_y < 3,
                        grid.well_formed(),
                        printable(grid@),
                        result@ == before_row + seq!['|', ' ', ' '] + blocks_text(
                            grid@,
                            3 * grid_y + subgrid_y,
                            grid_x as nat,
                        ),
                {
                    let ghost before_block = result@;
                    let subgrid = grid.get_subgrid_absolute(grid_x, grid_y);
                    for subgrid_x in 0..3usize
                        invariant
                            grid_x < 3,
                            grid_y < 3,
                            subgrid_y < 3,
                            grid.well_formed(),
                            printable(grid@),
                            subgrid.well_formed(),
                            *subgrid == grid.subgrids@[grid_x + grid_y * 3],
                            result@ == before_block + cells_text(
                                grid@,
                                grid_x as int,
                                3 * grid_y + subgrid_y,
                                subgrid_x as nat,
                            ),
                    {
                        let digit = subgrid.get_digit(subgrid_x, subgrid_y);
                        proof {
                            lemma_coordinates(3 * grid_x + subgrid_x, 3 * grid_y + subgrid_y);
                            assert(digit@ == cell_at(
                                grid@,
                                3 * grid_x + subgrid_x,
                                3 * grid_y + subgrid_y,
                            ));
                        }
                        let digit_char = digit.to_char();
                        result.push(digit_char);
                        result.push(' ');
                        assert(result@ =~= before_block + cells_text(
                            grid@,
                            grid_x as int,
                            3 * grid_y + subgrid_y,
                            (subgrid_x + 1) as nat,
                        ));
                    }
                    result.push(' ');
                    result.push('|');
                    result.push(' ');
                    result.push(' ');
                    assert(result@ =~= before_row + seq!['|', ' ', ' '] + blocks_text(
                        grid@,
                        3 * grid_y + subgrid_y,
                        (grid_x + 1) as nat,
                    ));
                }
                result.push('\n');
                assert(result@ =~= before_band + spacer_text() + rows_text(
                    grid@,
                    grid_y as int,
                    (subgrid_y + 1) as nat,
                ));
            }
            self.add_line_spacer(&mut result);
            assert(result@ =~= upper_line_text() + bands_text(grid@, (grid_y + 1) as nat));
        }
        Ok(result)
    }

    fn add_upper_line_spacer(&self, result: &mut String)
        ensures
            final(result)@ == old(result)@ + upper_line_text(),
    {
        result.push('.');
        for count in 0..29usize
            invariant
                result@ == old(result)@ + seq!['.'] + repeated('_', count as nat),
        {
            result.push('_');
            assert(result@ =~= old(result)@ + seq!['.'] + repeated('_', (count + 1) as nat));
        }
        result.push('.');
        assert(result@ =~= old(result)@ + upper_line_text());
    }

    fn add_spacer(&self, result: &mut String)
        ensures
            final(result)@ == old(result)@ + spacer_text(),
    {
        result.push('\n');
        result.push('|');
        for block in 0..3usize
            invariant
                result@ == old(result)@ + seq!['\n', '|'] + spacer_blocks(block as nat),
        {
            let ghost before = result@;
            result.push(' ');
            result.push(' ');
            for count in 0..5usize
                invariant
                    result@ == before + repeated(' ', (count + 2) as nat),
            {
                result.push(' ');
                assert(result@ =~= before + repeated(' ', (count + 3) as nat));
            }
            result.push(' ');
            result.push(' ');
            result.push('|');
            assert(result@ =~= old(result)@ + seq!['\n', '|'] + spacer_blocks((block + 1) as nat));
        }
        result.push('\n');
        assert(result@ =~= old(result)@ + spacer_text());
    }

    fn add_line_spacer(&self, result: &mut String)
        ensures
            final(result)@ == old(result)@ + line_spacer_text(),
    {
        result.push('|');
        for block in 0..3usize
            invariant
                result@ == old(result)@ + seq!['|'] + line_spacer_blocks(block as nat),
        {
            let ghost before = result@;
            result.push('_');
            result.push('_');
            for count in 0..5usize
                invariant
                    result@ == before + repeated('_', (count + 2) as nat),
            {
                result.push('_');
                assert(result@ =~= before + repeated('_', (count + 3) as nat));
            }
            result.push('_');
            result.push('_');
            result.push('|');
            assert(result@ =~= old(result)@ + seq!['|'] + line_spacer_blocks((block + 1) as nat));
        }
        assert(result@ =~= old(result)@ + line_spacer_text());
    }
}

impl Default for Generator {
    fn default() -> (result: Self) {
        Self::new()
    }
}

impl Digit {
    /// The character that stands for the digit in the drawing.
    pub fn to_char(&self) -> (character: char)
        requires
            match self@ {
                Cell::Known(value) => value < 10,
                Cell::Unknown(_) => true,
            },
        ensures
            character == cell_char(self@),
    {
        match self {
            Digit::Known(value) => match std::char::from_digit(*value, 10) {
                Some(character) => character,
                None => '0',
            },
            Digit::Unknown(_) => '0',
        }
    }
}

} // verus!
