//! Texts: which cell values a text gives, and how a grid is printed.

use crate::board::Board;
use crate::sudoku::SudokuMaxNumber;
use vstd::prelude::*;

verus! {

/// The digit that a character stands for in the given radix, if it
/// stands for one: `0` to `9` count as themselves, the letters `a` to
/// `z`, in either case, as ten to thirty-five.
pub open spec fn digit_of(c: char, radix: u32) -> Option<u32> {
    let code = c as u32;
    let value: int = if '0' as u32 <= code <= '9' as u32 {
        code - '0' as u32
    } else if 'a' as u32 <= code <= 'z' as u32 {
        code - 'a' as u32 + 10
    } else if 'A' as u32 <= code <= 'Z' as u32 {
        code - 'A' as u32 + 10
    } else {
        36
    };
    if value < radix {
        Some(value as u32)
    } else {
        None
    }
}

/// `char::to_digit`: the digit that the character stands for in the
/// given radix, or nothing if it stands for none. The function panics
/// on a radix below 2 or above 36.
pub assume_specification[ char::to_digit ](c: char, radix: u32) -> (found: Option<u32>)
    requires
        2 <= radix <= 36,
    ensures
        found == digit_of(c, radix),
;

/// `String::push`: the string grows by one character at its end.
pub assume_specification[ String::push ](s: &mut String, ch: char)
    ensures
        final(s)@ == old(s)@.push(ch),
;

/// The value, `0` to `15`, that a character gives when it is read as a
/// cell, if it gives one.
pub open spec fn cell_value(c: char) -> Option<usize> {
    match digit_of(c, 16) {
        Some(d) => Some(d as usize),
        None => None,
    }
}

/// The cell values that a text gives for a grid of the given order: the
/// value of each character that has one, unless it is larger than the
/// order allows, in the order of the text.
pub open spec fn accepted(order: SudokuMaxNumber, text: Seq<char>) -> Seq<usize>
    decreases text.len(),
{
    if text.len() == 0 {
        Seq::empty()
    } else {
        let rest = accepted(order, text.drop_last());
        match cell_value(text.last()) {
            Some(d) => if d <= order.side() {
                rest.push(d)
            } else {
                rest
            },
            None => rest,
        }
    }
}

/// The cell values of a text that are larger than the order allows, in
/// the order of the text.
pub open spec fn out_of_range(order: SudokuMaxNumber, text: Seq<char>) -> Seq<usize>
    decreases text.len(),
{
    if text.len() == 0 {
        Seq::empty()
    } else {
        let rest = out_of_range(order, text.drop_last());
        match cell_value(text.last()) {
            Some(d) => if d <= order.side() {
                rest
            } else {
                rest.push(d)
            },
            None => rest,
        }
    }
}

/// Number of characters of a text that have no cell value.
pub open spec fn discarded(text: Seq<char>) -> nat
    decreases text.len(),
{
    if text.len() == 0 {
        0
    } else {
        discarded(text.drop_last()) + if cell_value(text.last()) is None {
            1nat
        } else {
            0nat
        }
    }
}

/// Every accepted value is one that the order allows, and a text gives
/// no more values than it has characters.
pub proof fn lemma_accepted_bounded(order: SudokuMaxNumber, text: Seq<char>)
    ensures
        forall|i: int|
            0 <= i < accepted(order, text).len() ==> #[trigger] accepted(order, text)[i]
                <= order.side(),
        accepted(order, text).len() + out_of_range(order, text).len() + discarded(text)
            == text.len(),
    decreases text.len(),
{
    if text.len() > 0 {
        lemma_accepted_bounded(order, text.drop_last());
    }
}

/// `str::eq`: whether two texts hold the same characters.
#[verifier::external_body]
pub(crate) fn same_text(a: &str, b: &str) -> (same: bool)
    ensures
        same == (a@ == b@),
{
    a == b
}

/// The character that stands for a digit, `0` to `9`.
pub open spec fn digit_char(d: int) -> char {
    ((48 + d) as u8) as char
}

/// The character that stands for a digit, `0` to `9`.
pub(crate) fn digit(d: usize) -> (c: char)
    requires
        d < 10,
    ensures
        c == digit_char(d as int),
{
    (48u8 + d as u8) as char
}

/// The border that stands above and below every band of blocks.
pub open spec fn header_text(order: SudokuMaxNumber) -> Seq<char> {
    match order {
        SudokuMaxNumber::Nr4 => "+--+--+"@,
        SudokuMaxNumber::Nr9 => "+---+---+---+"@,
        SudokuMaxNumber::Nr16 => "+-----------+-----------+-----------+-----------+"@,
    }
}

/// A cell's value as it is printed: in decimal, and for the order 16 in
/// a field of two characters, to the right.
pub open spec fn cell_text(order: SudokuMaxNumber, value: usize) -> Seq<char> {
    if value >= 10 {
        seq![digit_char(value as int / 10), digit_char(value as int % 10)]
    } else if order is Nr16 {
        seq![' ', digit_char(value as int)]
    } else {
        seq![digit_char(value as int)]
    }
}

/// What follows a cell in its line: a bar after the last cell of a
/// block, else a space for the order 16, and nothing for the others.
pub open spec fn cell_end(order: SudokuMaxNumber, x: int) -> Seq<char> {
    if (x + 1) % order.block_side() == 0 {
        seq!['|']
    } else if order is Nr16 {
        seq![' ']
    } else {
        Seq::empty()
    }
}

/// The line of row `y` up to, and without, column `n`.
pub open spec fn line_text_upto(board: Board, y: int, n: nat) -> Seq<char>
    decreases n,
{
    if n == 0 {
        seq!['|']
    } else {
        line_text_upto(board, y, (n - 1) as nat) + cell_text(board.order, board.cell(n - 1, y))
            + cell_end(board.order, n - 1)
    }
}

/// The line of row `y`: a bar, then the cells, each block closed by a
/// bar.
pub open spec fn line_text(board: Board, y: int) -> Seq<char> {
    line_text_upto(board, y, board.side() as nat)
}

/// A band of blocks up to, and without, its row `n`: the border, then a
/// line for each row, each followed by a line feed.
pub open spec fn band_text_upto(board: Board, band: int, n: nat) -> Seq<char>
    decreases n,
{
    if n == 0 {
        header_text(board.order) + "\n"@
    } else {
        band_text_upto(board, band, (n - 1) as nat) + line_text(
            board,
            band * board.block_side() + n - 1,
        ) + "\n"@
    }
}

/// The first `n` bands of blocks, one after the other.
pub open spec fn bands_text(board: Board, n: nat) -> Seq<char>
    decreases n,
{
    if n == 0 {
        Seq::empty()
    } else {
        bands_text(board, (n - 1) as nat) + band_text_upto(
            board,
            n - 1,
            board.block_side() as nat,
        )
    }
}

/// The grid as it is printed: its bands of blocks, each under a border,
/// and a border below the last.
pub open spec fn grid_text(board: Board) -> Seq<char> {
    bands_text(board, board.block_side() as nat) + header_text(board.order)
}

} // verus!
