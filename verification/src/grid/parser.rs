//! The textual form of a grid, read.
//!
//! A grid is written as its numerals row by row, `0` for an undetermined
//! cell. Commas, semicolons, newlines and spaces between them are ignored.

use std::borrow::Cow;
use vstd::prelude::*;
use vstd::string::StringExecFns;
use crate::grid::board::{
    block_index, Board, cell_at, in_grid, in_range, joint_x, joint_y, lemma_coordinates, slot_index,
    well_formed,
};
use crate::grid::digit::{Cell, Digit};
use crate::grid::{Grid, Subgrid};

verus! {

/// What [`Parser::parse`] returns.
pub type ParserResult = Result<Grid, ParserError>;

/// The description of what the parser rejected.
pub type ParserError = Cow<'static, str>;

/// The character is one of the decimal digits.
pub open spec fn is_numeral(character: char) -> bool {
    '0' <= character <= '9'
}

/// The character is one of those that may stand between numerals.
pub open spec fn is_separator(character: char) -> bool {
    character == ',' || character == ';' || character == '\n' || character == ' '
}

/// The value of a decimal digit.
pub open spec fn numeral_of(character: char) -> u32 {
    (character as u32 - 48) as u32
}

/// The values of the decimal digits of `text`, in their order.
pub open spec fn numerals_in(text: Seq<char>) -> Seq<u32> {
    text.filter(|character: char| is_numeral(character)).map_values(
        |character: char| numeral_of(character),
    )
}

/// The parser rejects the character at `index`: it is neither a numeral nor
/// a separator, or it is a numeral after the eighty-one that a grid holds.
pub open spec fn rejected_at(text: Seq<char>, index: int) -> bool {
    if is_numeral(text[index]) {
        numerals_in(text.take(index)).len() >= 81
    } else {
        !is_separator(text[index])
    }
}

/// The parser rejects no character of `text`.
pub open spec fn accepted(text: Seq<char>) -> bool {
    forall|index: int| 0 <= index < text.len() ==> !rejected_at(text, index)
}

/// The place of the first character that the parser rejects.
pub open spec fn first_rejected(text: Seq<char>) -> int {
    choose|index: int|
        0 <= index < text.len() && rejected_at(text, index) && forall|earlier: int|
            0 <= earlier < index ==> !rejected_at(text, earlier)
}

/// The block that receives the numeral read after `count` others: the text
/// runs row by row, so three numerals in turn go to each block of a band, and
/// a band takes twenty-seven.
pub open spec fn block_of_count(count: int) -> int {
    3 * (count / 27) + (count / 3) % 3
}

/// The blocks after the numerals have been handed out one by one, each
/// appended to its block.
pub open spec fn placed(numerals: Seq<u32>) -> Board
    decreases numerals.len(),
{
    if numerals.len() == 0 {
        Seq::new(9, |k: int| Seq::<Cell>::empty())
    } else {
        let earlier = placed(numerals.drop_last());
        let block = block_of_count(numerals.len() - 1);
        earlier.update(block, earlier[block].push(Digit::of_numeral(numerals.last())))
    }
}

/// The message for a character that is neither a numeral nor a separator.
pub open spec fn invalid_character(character: char) -> Seq<char> {
    "Invalid character: '"@.push(character).push('\'')
}

/// What parsing `text` gives: the blocks filled with its numerals where every
/// character is accepted, and else the message for the first rejected one.
pub open spec fn parsed(text: Seq<char>) -> Result<Board, Seq<char>> {
    if accepted(text) {
        Ok(placed(numerals_in(text)))
    } else if is_numeral(text[first_rejected(text)]) {
        Err("Invalid index"@)
    } else {
        Err(invalid_character(text[first_rejected(text)]))
    }
}

/// The values of the digits that are being collected, block by block.
pub open spec fn collected(blocks: Seq<Vec<Digit>>) -> Board {
    Seq::new(blocks.len(), |k: int| Seq::new(blocks[k]@.len(), |s: int| blocks[k]@[s]@))
}

/// The reader of the textual form of a grid.
pub struct Parser;

impl Parser {
    /// A parser.
    pub fn new() -> (result: Self) {
        Self {}
    }

    /// Reads a grid from its textual form. The grid holds the numerals of
    /// `syntax` in their order, handed out to the blocks row by row; a text
    /// with fewer than eighty-one numerals leaves blocks short. A character
    /// that is neither a numeral nor a separator is rejected, and so is an
    /// eighty-second numeral.
    pub fn parse(&self, syntax: String) -> (result: ParserResult)
        ensures
            match result {
                Ok(grid) => {
                    &&& parsed(syntax@) == Ok::<Board, Seq<char>>(grid@)
                    &&& (grid.well_formed() <==> numerals_in(syntax@).len() == 81)
                    &&& (grid.well_formed() ==> in_range(grid@))
                },
                Err(message) => parsed(syntax@) == Err::<Board, Seq<char>>(message@),
            },
    {
        let subgrids_digits = match self.parse_characters(syntax.as_str()) {
            Ok(subgrids_digits) => subgrids_digits,
            Err(message) => {
                return Err(message);
            },
        };
        let ghost blocks = collected(subgrids_digits@);
        let mut subgrids: Vec<Subgrid> = Vec::with_capacity(9);
        for digits in it: subgrids_digits
            invariant
                it.seq() == subgrids_digits@,
                blocks == collected(subgrids_digits@),
                subgrids@.len() == it.index(),
                forall|k: int| 0 <= k < it.index() ==> (#[trigger] subgrids@[k])@ == blocks[k],
        {
            let subgrid = Subgrid::new(digits);
            assert(subgrid@ =~= blocks[it.index() as int]);
            subgrids.push(subgrid);
        }
        let grid = Grid::new(subgrids);
        assert(grid@ =~= blocks);
        proof {
            lemma_parsed_shape(syntax@);
        }
        Ok(grid)
    }

    fn parse_characters(&self, characters: &str) -> (result: Result<Vec<Vec<Digit>>, ParserError>)
        ensures
            match result {
                Ok(blocks) => parsed(characters@) == Ok::<Board, Seq<char>>(collected(blocks@))
                    && numerals_in(characters@).len() <= 81,
                Err(message) => parsed(characters@) == Err::<Board, Seq<char>>(message@),
            },
    {
        let mut digit_counter: usize = 0;
        let mut subgrids_digits: Vec<Vec<Digit>> = Vec::with_capacity(9);
        for block in 0..9usize
            invariant
                subgrids_digits@.len() == block,
                forall|k: int| 0 <= k < block ==> (#[trigger] subgrids_digits@[k])@.len() == 0,
        {
            subgrids_digits.push(Vec::new());
        }
        assert(collected(subgrids_digits@) =~~= placed(Seq::empty()));
        let ghost text = characters@;
        assert(text.take(0).filter(|character: char| is_numeral(character)).len() == 0) by {
            reveal(Seq::filter);
        }
        for character in it: characters.chars()
            invariant
                it.seq() == text,
                text == characters@,
                forall|index: int| 0 <= index < it.index() ==> !rejected_at(text, index),
                digit_counter == numerals_in(text.take(it.index() as int)).len(),
                digit_counter <= 81,
                collected(subgrids_digits@) == placed(numerals_in(text.take(it.index() as int))),
        {
            let ghost index = it.index() as int;
            proof {
                lemma_numerals_step(text, index);
            }
            match self.parse_character(character, &mut digit_counter, &mut subgrids_digits) {
                Ok(()) => {},
                Err(message) => {
                    proof {
                        assert(rejected_at(text, index));
                        let first = first_rejected(text);
                        assert(first == index);
                    }
                    return Err(message);
                },
            }
        }
        assert(text.take(text.len() as int) == text);
        Ok(subgrids_digits)
    }

    fn parse_character(
        &self,
        character: char,
        digit_counter: &mut usize,
        subgrids_digits: &mut Vec<Vec<Digit>>,
    ) -> (result: Result<(), ParserError>)
        requires
            *old(digit_counter) <= 81,
            exists|numerals: Seq<u32>|
                numerals.len() == *old(digit_counter) && collected(old(subgrids_digits)@)
                    == placed(numerals),
        ensures
            match result {
                Ok(_) => if is_numeral(character) {
                    &&& *old(digit_counter) < 81
                    &&& *final(digit_counter) == *old(digit_counter) + 1
                    &&& forall|numerals: Seq<u32>|
                        numerals.len() == *old(digit_counter) && collected(old(subgrids_digits)@)
                            == placed(numerals) ==> collected(final(subgrids_digits)@)
                            == #[trigger] placed(numerals.push(numeral_of(character)))
                } else {
                    &&& is_separator(character)
                    &&& *final(digit_counter) == *old(digit_counter)
                    &&& *final(subgrids_digits) == *old(subgrids_digits)
                },
                Err(message) => if is_numeral(character) {
                    *old(digit_counter) >= 81 && message@ == "Invalid index"@
                } else {
                    !is_separator(character) && message@ == invalid_character(character)
                },
            },
    {
        if '0' <= character && character <= '9' {
            self.parse_digit(character, digit_counter, subgrids_digits)
        } else if character == ',' || character == ';' || character == '\n' || character == ' ' {
            Ok(())
        } else {
            let mut message = String::from_str("Invalid character: '");
            message.push(character);
            message.push('\'');
            Err(Cow::Owned(message))
        }
    }

    fn parse_digit(
        &self,
        character: char,
        digit_counter: &mut usize,
        subgrids_digits: &mut Vec<Vec<Digit>>,
    ) -> (result: Result<(), ParserError>)
        requires
            is_numeral(character),
            *old(digit_counter) <= 81,
            exists|numerals: Seq<u32>|
                numerals.len() == *old(digit_counter) && collected(old(subgrids_digits)@)
                    == placed(numerals),
        ensures
            match result {
                Ok(_) => {
                    &&& *old(digit_counter) < 81
                    &&& *final(digit_counter) == *old(digit_counter) + 1
                    &&& forall|numerals: Seq<u32>|
                        numerals.len() == *old(digit_counter) && collected(old(subgrids_digits)@)
                            == placed(numerals) ==> collected(final(subgrids_digits)@)
                            == #[trigger] placed(numerals.push(numeral_of(character)))
                },
                Err(message) => *old(digit_counter) >= 81 && message@ == "Invalid index"@,
            },
    {
        let counter = *digit_counter;
        let row = counter / 27;
        let index = 3 * row + (counter / 3) % 3;
        proof {
            let numerals = choose|numerals: Seq<u32>|
                numerals.len() == counter && collected(old(subgrids_digits)@) == placed(numerals);
            lemma_placed_blocks(numerals);
        }
        if index >= subgrids_digits.len() {
            return Err(Cow::Borrowed("Invalid index"));
        }
        let digit = match character.to_digit(10) {
            Some(digit) => digit,
            None => {
                return Err(Cow::Borrowed("Invalid character"));
            },
        };
        let digit = Digit::from(digit);
        let ghost before = collected(subgrids_digits@);
        subgrids_digits[index].push(digit);
        *digit_counter += 1;
        proof {
            assert forall|numerals: Seq<u32>|
                numerals.len() == counter && before == placed(numerals) implies collected(
                subgrids_digits@,
            ) == #[trigger] placed(numerals.push(numeral_of(character))) by {
                let longer = numerals.push(numeral_of(character));
                assert(longer.drop_last() == numerals);
                assert(collected(subgrids_digits@) =~~= placed(longer));
            }
        }
        Ok(())
    }
}

impl Default for Parser {
    fn default() -> (result: Self) {
        Self::new()
    }
}

/// The blocks that hold the numerals handed out so far are nine.
pub proof fn lemma_placed_blocks(numerals: Seq<u32>)
    requires
        numerals.len() <= 81,
    ensures
        placed(numerals).len() == 9,
    decreases numerals.len(),
{
    if numerals.len() > 0 {
        lemma_placed_blocks(numerals.drop_last());
    }
}

/// One more character of the text adds its value to the numerals if it is a
/// numeral, and nothing otherwise.
pub proof fn lemma_numerals_step(text: Seq<char>, index: int)
    requires
        0 <= index < text.len(),
    ensures
        numerals_in(text.take(index + 1)) == if is_numeral(text[index]) {
            numerals_in(text.take(index)).push(numeral_of(text[index]))
        } else {
            numerals_in(text.take(index))
        },
{
    reveal(Seq::filter);
    let longer = text.take(index + 1);
    assert(longer.drop_last() == text.take(index));
    assert(longer.last() == text[index]);
    let numeral = |character: char| is_numeral(character);
    if is_numeral(text[index]) {
        assert(longer.filter(numeral) == text.take(index).filter(numeral).push(text[index]));
        assert(numerals_in(longer) =~= numerals_in(text.take(index)).push(
            numeral_of(text[index]),
        ));
    } else {
        assert(longer.filter(numeral) == text.take(index).filter(numeral));
    }
}

/// The number of digits that block `block` holds after `count` numerals have
/// been handed out.
pub open spec fn filled(block: int, count: int) -> int {
    let band = count / 27;
    let row = (count % 27) / 9;
    let column = count % 9;
    if block / 3 < band {
        9
    } else if block / 3 > band {
        0
    } else if column < 3 * (block % 3) {
        3 * row
    } else if column >= 3 * (block % 3) + 3 {
        3 * row + 3
    } else {
        3 * row + column - 3 * (block % 3)
    }
}

/// The band, the row inside the band and the column that the numeral read
/// after `count` others belongs to.
pub proof fn lemma_count_parts(count: int, band: int, row: int, column: int)
    requires
        0 <= row < 3,
        0 <= column < 9,
        count == 27 * band + 9 * row + column,
    ensures
        count / 27 == band,
        (count % 27) / 9 == row,
        count % 9 == column,
        (count / 3) % 3 == column / 3,
{
}

/// The numeral read after `last` others goes to the first free slot of its
/// block, which is the slot of its own cell, and to no other block.
pub proof fn lemma_filled_step(block: int, last: int)
    requires
        0 <= block < 9,
        0 <= last < 81,
    ensures
        0 <= block_of_count(last) < 9,
        0 <= filled(block, last) <= 9,
        block == block_of_count(last) ==> filled(block, last) < 9 && filled(block, last + 1)
            == filled(block, last) + 1 && 9 * joint_y(block, filled(block, last)) + joint_x(
            block,
            filled(block, last),
        ) == last,
        block != block_of_count(last) ==> filled(block, last + 1) == filled(block, last),
{
    let band = last / 27;
    let row = (last % 27) / 9;
    let column = last % 9;
    lemma_count_parts(last, band, row, column);
    if column < 8 {
        lemma_count_parts(last + 1, band, row, column + 1);
    } else if row < 2 {
        lemma_count_parts(last + 1, band, row + 1, 0);
    } else {
        lemma_count_parts(last + 1, band + 1, 0, 0);
    }
    let target = 3 * band + column / 3;
    assert(block_of_count(last) == target);
    if block == target {
        assert(block / 3 == band && block % 3 == column / 3);
        assert(filled(block, last) == 3 * row + column % 3);
    }
}

/// The slots that a block has filled after `count` numerals are those of its
/// cells that the text has reached.
pub proof fn lemma_filled_slot(block: int, slot: int, count: int)
    requires
        0 <= block < 9,
        0 <= count <= 81,
        0 <= slot < filled(block, count),
    ensures
        slot < 9,
        0 <= 9 * joint_y(block, slot) + joint_x(block, slot) < count,
{
}

/// After `count` numerals have been handed out, every block holds the
/// numerals of its own cells that have been read so far: slot `s` of block
/// `k` holds the numeral of row `joint_y(k, s)` and column `joint_x(k, s)`
/// of the text.
pub proof fn lemma_placed_prefix(numerals: Seq<u32>, count: nat)
    requires
        count <= numerals.len(),
        count <= 81,
    ensures
        placed(numerals.take(count as int)).len() == 9,
        forall|k: int|
            0 <= k < 9 ==> (#[trigger] placed(numerals.take(count as int))[k]).len() == filled(
                k,
                count as int,
            ),
        forall|k: int, s: int|
            0 <= k < 9 && 0 <= s < filled(k, count as int) ==> (#[trigger] placed(
                numerals.take(count as int),
            )[k][s]) == Digit::of_numeral(numerals[9 * joint_y(k, s) + joint_x(k, s)]),
    decreases count,
{
    let prefix = numerals.take(count as int);
    if count == 0 {
        assert forall|k: int| 0 <= k < 9 implies filled(k, 0) == 0 by {}
    } else {
        lemma_placed_prefix(numerals, (count - 1) as nat);
        let last = count - 1;
        let shorter = numerals.take(last);
        assert(prefix.drop_last() == shorter);
        assert(prefix.last() == numerals[last]);
        let block = block_of_count(last);
        let earlier = placed(shorter);
        let board = placed(prefix);
        lemma_filled_step(block, last);
        assert(board == earlier.update(
            block,
            earlier[block].push(Digit::of_numeral(numerals[last])),
        ));
        assert forall|k: int| 0 <= k < 9 implies (#[trigger] board[k]).len() == filled(
            k,
            count as int,
        ) by {
            lemma_filled_step(k, last);
        }
        assert forall|k: int, s: int| 0 <= k < 9 && 0 <= s < filled(k, count as int) implies (
        #[trigger] board[k][s]) == Digit::of_numeral(
            numerals[9 * joint_y(k, s) + joint_x(k, s)],
        ) by {
            lemma_filled_step(k, last);
            if k != block || s < filled(block, last) {
                assert(board[k][s] == earlier[k][s]);
            }
        }
    }
}

/// A text of eighty-one numerals gives a well-formed board that holds them
/// row by row: the cell in column `x` of row `y` holds the numeral that
/// stands at the place `9 * y + x` of the text.
pub proof fn lemma_placed_full(numerals: Seq<u32>)
    requires
        numerals.len() == 81,
    ensures
        well_formed(placed(numerals)),
        forall|x: int, y: int|
            in_grid(x, y) ==> #[trigger] cell_at(placed(numerals), x, y) == Digit::of_numeral(
                numerals[9 * y + x],
            ),
{
    lemma_placed_prefix(numerals, 81);
    assert(numerals.take(81) == numerals);
    let board = placed(numerals);
    assert forall|k: int| 0 <= k < 9 implies (#[trigger] board[k]).len() == 9 by {
        assert(filled(k, 81) == 9);
    }
    assert forall|x: int, y: int| in_grid(x, y) implies #[trigger] cell_at(board, x, y)
        == Digit::of_numeral(numerals[9 * y + x]) by {
        lemma_coordinates(x, y);
        assert(filled(block_index(x, y), 81) == 9);
        lemma_filled_slot(block_index(x, y), slot_index(x, y), 81);
        assert(board[block_index(x, y)][slot_index(x, y)] == Digit::of_numeral(
            numerals[9 * joint_y(block_index(x, y), slot_index(x, y)) + joint_x(
                block_index(x, y),
                slot_index(x, y),
            )],
        ));
    }
}

/// The numerals of a text are at most nine each.
pub proof fn lemma_numerals_small(text: Seq<char>, place: int)
    requires
        0 <= place < numerals_in(text).len(),
    ensures
        numerals_in(text)[place] <= 9,
{
    text.lemma_filter_pred(|character: char| is_numeral(character), place);
}

/// The numerals of a text decide the shape of what is read from it: the
/// board is well formed exactly when there are eighty-one of them, and then
/// every cell holds a numeral from one to nine or is undetermined without
/// candidates.
pub proof fn lemma_parsed_shape(text: Seq<char>)
    requires
        numerals_in(text).len() <= 81,
    ensures
        well_formed(placed(numerals_in(text))) <==> numerals_in(text).len() == 81,
        well_formed(placed(numerals_in(text))) ==> in_range(placed(numerals_in(text))),
{
    let numerals = numerals_in(text);
    let board = placed(numerals);
    lemma_placed_prefix(numerals, numerals.len());
    assert(numerals.take(numerals.len() as int) == numerals);
    if numerals.len() == 81 {
        lemma_placed_full(numerals);
        assert forall|x: int, y: int| in_grid(x, y) implies (#[trigger] cell_at(
            board,
            x,
            y,
        )).in_range() by {
            lemma_numerals_small(text, 9 * y + x);
        }
    } else {
        assert(board[8].len() == filled(8, numerals.len() as int));
    }
}

} // verus!
