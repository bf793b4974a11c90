//! The grid: its order, its cells, reading it from text and printing it.

use crate::bits::{empty_set, insert, members, remove};
use crate::board::{
    lemma_block_seen_rows, lemma_block_seen_step, lemma_col_seen_step, lemma_index_in_range,
    lemma_join, lemma_row_seen_step, Board,
};
use crate::text::{
    accepted, band_text_upto, bands_text, cell_end, cell_text, digit, discarded, grid_text,
    header_text, lemma_accepted_bounded, line_text, line_text_upto, out_of_range, same_text,
};
use bit_set::BitSet;
use vstd::prelude::*;
use vstd::string::StrSliceExecFns;

verus! {

/// The order of a puzzle, named after the largest value a cell can hold.
#[derive(Debug, Clone, Copy, PartialEq, Eq, Structural)]
pub enum SudokuMaxNumber {
    Nr4,
    Nr9,
    Nr16,
}

impl SudokuMaxNumber {
    /// Number of cells on one side of a block.
    pub open spec fn block_side(self) -> int {
        match self {
            SudokuMaxNumber::Nr4 => 2,
            SudokuMaxNumber::Nr9 => 3,
            SudokuMaxNumber::Nr16 => 4,
        }
    }

    /// Number of cells on one side of the grid, which is also the largest
    /// value of a cell.
    pub open spec fn side(self) -> int {
        match self {
            SudokuMaxNumber::Nr4 => 4,
            SudokuMaxNumber::Nr9 => 9,
            SudokuMaxNumber::Nr16 => 16,
        }
    }

    /// Number of cells of the grid.
    pub open spec fn cell_count(self) -> int {
        match self {
            SudokuMaxNumber::Nr4 => 16,
            SudokuMaxNumber::Nr9 => 81,
            SudokuMaxNumber::Nr16 => 256,
        }
    }

    /// Position of the cell `(x, y)` in the flat, row after row, sequence
    /// of cells.
    pub open spec fn index(self, x: int, y: int) -> int {
        x + y * self.side()
    }

    /// A side is a block side squared, and the grid has a side squared of
    /// cells, which is the fourth power of a block side.
    pub proof fn sizes(self)
        ensures
            self.side() == self.block_side() * self.block_side(),
            self.cell_count() == self.side() * self.side(),
            self.cell_count() == self.block_side() * self.block_side() * self.block_side()
                * self.block_side(),
    {
        let p = self.block_side();
        let s = self.side();
        let n = self.cell_count();
        assert(s == p * p && n == s * s && n == p * p * p * p) by (nonlinear_arith)
            requires
                (p == 2 && s == 4 && n == 16) || (p == 3 && s == 9 && n == 81) || (p == 4 && s
                    == 16 && n == 256),
        ;
    }

    /// The order that a text names: `4x4`, `9x9` or `16x16`.
    pub fn parse(s: &str) -> (parsed: Result<SudokuMaxNumber, ParseError>)
        ensures
            parsed == match order_named(s@) {
                Some(order) => Ok::<SudokuMaxNumber, ParseError>(order),
                None => Err(ParseError::Size),
            },
    {
        if same_text(s, "4x4") {
            Ok(SudokuMaxNumber::Nr4)
        } else if same_text(s, "9x9") {
            Ok(SudokuMaxNumber::Nr9)
        } else if same_text(s, "16x16") {
            Ok(SudokuMaxNumber::Nr16)
        } else {
            Err(ParseError::Size)
        }
    }

    /// Number of blocks along one side, which is the number of cells on
    /// one side of a block.
    pub fn side_parts(&self) -> (parts: usize)
        ensures
            parts == self.block_side(),
    {
        match self {
            SudokuMaxNumber::Nr4 => 2,
            SudokuMaxNumber::Nr9 => 3,
            SudokuMaxNumber::Nr16 => 4,
        }
    }

    /// Number of cells on one side of the grid.
    pub fn side_length(&self) -> (length: usize)
        ensures
            length == self.side(),
    {
        match self {
            SudokuMaxNumber::Nr4 => 4,
            SudokuMaxNumber::Nr9 => 9,
            SudokuMaxNumber::Nr16 => 16,
        }
    }

    /// Number of rows in one band of blocks.
    pub fn lines_per_part(&self) -> (lines: usize)
        ensures
            lines == self.block_side(),
    {
        self.side_length() / self.side_parts()
    }

    /// Number of cells of the grid.
    pub fn nr_fields(&self) -> (fields: usize)
        ensures
            fields == self.cell_count(),
    {
        match self {
            SudokuMaxNumber::Nr4 => 16,
            SudokuMaxNumber::Nr9 => 81,
            SudokuMaxNumber::Nr16 => 256,
        }
    }
}

/// Why a text was not taken.
#[derive(Debug, Clone, Copy, PartialEq, Eq, Structural)]
pub enum ParseError {
    /// The text names none of the orders.
    Size,
    /// For none of the orders does the text hold as many cell values as
    /// the grid has cells.
    CellCount,
}

impl ParseError {
    /// Advice for the one who wrote the text.
    pub fn message(&self) -> (text: &'static str)
        ensures
            text@ == match *self {
                ParseError::Size => "Try one of these: '4x4', '9x9' or '16x16'"@,
                ParseError::CellCount =>
                    "Try something like this one:\n260 050 038\n400 007 006\n000 010 000\n\n090 000 000\n301 020 607\n000 000 040\n\n000 060 000\n700 800 009\n950 070 013\n"@,
            },
    {
        match self {
            ParseError::Size => "Try one of these: '4x4', '9x9' or '16x16'",
            ParseError::CellCount =>
                "Try something like this one:\n260 050 038\n400 007 006\n000 010 000\n\n090 000 000\n301 020 607\n000 000 040\n\n000 060 000\n700 800 009\n950 070 013\n",
        }
    }
}

/// The order that a text names, if it names one.
pub open spec fn order_named(name: Seq<char>) -> Option<SudokuMaxNumber> {
    if name == "4x4"@ {
        Some(SudokuMaxNumber::Nr4)
    } else if name == "9x9"@ {
        Some(SudokuMaxNumber::Nr9)
    } else if name == "16x16"@ {
        Some(SudokuMaxNumber::Nr16)
    } else {
        None
    }
}

/// The grid that a text gives when the orders are tried from the
/// smallest to the largest, if it gives one for any of them.
pub open spec fn first_grid_of(text: Seq<char>) -> Option<Board> {
    if grid_of(SudokuMaxNumber::Nr4, text) is Some {
        grid_of(SudokuMaxNumber::Nr4, text)
    } else if grid_of(SudokuMaxNumber::Nr9, text) is Some {
        grid_of(SudokuMaxNumber::Nr9, text)
    } else {
        grid_of(SudokuMaxNumber::Nr16, text)
    }
}

/// What a text was found to hold when it was read for a grid of one
/// order.
#[derive(Debug)]
pub struct Reading {
    /// The cell values that the text gives, in the order of the text.
    pub cells: Vec<usize>,
    /// Number of characters that are no cell value.
    pub discarded: usize,
    /// The cell values that are larger than the order allows.
    pub incorrect_range: Vec<usize>,
}

/// The grid that a text gives for the given order, if it gives one: it
/// does so when it holds just as many cell values as the grid has cells.
pub open spec fn grid_of(order: SudokuMaxNumber, text: Seq<char>) -> Option<Board> {
    if accepted(order, text).len() == order.cell_count() {
        Some(Board { order, cells: accepted(order, text) })
    } else {
        None
    }
}

/// A grid: an order and the value of each cell, `0` for an empty one.
#[derive(Debug)]
pub struct Sudoku {
    pub smn: SudokuMaxNumber,
    memory: Vec<usize>,
}

impl View for Sudoku {
    type V = Board;

    closed spec fn view(&self) -> Board {
        Board { order: self.smn, cells: self.memory@ }
    }
}

impl Clone for Sudoku {
    /// A grid of the same order with the same cells.
    fn clone(&self) -> (copy: Sudoku)
        ensures
            copy@ == self@,
    {
        Sudoku { smn: self.smn, memory: self.memory.clone() }
    }
}

impl Sudoku {
    /// The grid has every cell of its order, each `0` or a value of the
    /// order.
    pub open spec fn wf(&self) -> bool {
        self@.wf()
    }

    /// The grid of the given order with no cell filled.
    pub fn new(smn: SudokuMaxNumber) -> (sudoku: Sudoku)
        ensures
            sudoku.wf(),
            sudoku@ == Board::blank(smn),
    {
        let mem: Vec<usize> = vec![0usize; smn.nr_fields()];
        let sudoku = Sudoku { smn: smn, memory: mem };
        assert(sudoku@.cells =~= Board::blank(smn).cells);
        sudoku
    }

    /// Reads a text for a grid of the given order: every character that
    /// is a digit in base sixteen is a cell value, unless it is larger
    /// than the order allows; every other character is passed over.
    pub fn read(smn: SudokuMaxNumber, sudoku_str: &str) -> (reading: Reading)
        ensures
            reading.cells@ == accepted(smn, sudoku_str@),
            reading.incorrect_range@ == out_of_range(smn, sudoku_str@),
            reading.discarded == discarded(sudoku_str@),
    {
        // The number of characters bounds the count of those passed over.
        let total: usize = sudoku_str.unicode_len();
        let side: usize = smn.side_length();
        let mut cells: Vec<usize> = Vec::new();
        let mut incorrect_range: Vec<usize> = Vec::new();
        let mut discarded_count: usize = 0;
        let ghost text = sudoku_str@;
        for c in it: sudoku_str.chars()
            invariant
                text == sudoku_str@,
                total == text.len(),
                side == smn.side(),
                it.seq() == text,
                cells@ == accepted(smn, text.take(it.index())),
                incorrect_range@ == out_of_range(smn, text.take(it.index())),
                discarded_count == discarded(text.take(it.index())),
        {
            proof {
                let i = it.index();
                assert(text.take(i + 1).drop_last() =~= text.take(i));
                assert(text.take(i + 1).last() == c);
                lemma_accepted_bounded(smn, text.take(i));
            }
            match c.to_digit(16) {
                None => {
                    discarded_count += 1;
                },
                Some(n) => {
                    let n: usize = n as usize;
                    if n <= side {
                        cells.push(n);
                    } else {
                        incorrect_range.push(n);
                    }
                },
            }
        }
        proof {
            assert(text.take(text.len() as int) =~= text);
        }
        Reading { cells: cells, discarded: discarded_count, incorrect_range: incorrect_range }
    }

    /// The grid that a text gives for the given order, if it gives one.
    pub fn from(smn: SudokuMaxNumber, sudoku_str: &str) -> (parsed: Option<Sudoku>)
        ensures
            parsed is Some <==> grid_of(smn, sudoku_str@) is Some,
            parsed matches Some(sudoku) ==> sudoku.wf() && Some(sudoku@) == grid_of(
                smn,
                sudoku_str@,
            ),
    {
        let reading = Sudoku::read(smn, sudoku_str);
        let s: Vec<usize> = reading.cells;
        proof {
            lemma_accepted_bounded(smn, sudoku_str@);
        }
        if s.len() != smn.nr_fields() {
            None
        } else {
            Some(Sudoku { smn: smn, memory: s })
        }
    }

    /// The grid that a text gives for the first order, from the smallest
    /// to the largest, for which it gives one.
    pub fn parse(s: &str) -> (parsed: Result<Sudoku, ParseError>)
        ensures
            match parsed {
                Ok(sudoku) => sudoku.wf() && Some(sudoku@) == first_grid_of(s@),
                Err(error) => error == ParseError::CellCount && first_grid_of(s@) is None,
            },
    {
        if let Some(sudoku) = Sudoku::from(SudokuMaxNumber::Nr4, s) {
            Ok(sudoku)
        } else if let Some(sudoku) = Sudoku::from(SudokuMaxNumber::Nr9, s) {
            Ok(sudoku)
        } else if let Some(sudoku) = Sudoku::from(SudokuMaxNumber::Nr16, s) {
            Ok(sudoku)
        } else {
            Err(ParseError::CellCount)
        }
    }

    /// The order of the grid.
    pub fn order(&self) -> (order: SudokuMaxNumber)
        ensures
            order == self@.order,
    {
        self.smn
    }

    /// The value at column `x` of row `y`.
    pub fn get(&self, x: usize, y: usize) -> (value: usize)
        requires
            self.wf(),
            x < self@.side(),
            y < self@.side(),
        ensures
            value == self@.cell(x as int, y as int),
            value <= self@.side(),
    {
        proof {
            lemma_index_in_range(self.smn, x as int, y as int);
        }
        self.memory[x + y * self.smn.side_length()]
    }

    /// Writes `value` at column `x` of row `y`.
    pub fn set(&mut self, x: usize, y: usize, value: usize)
        requires
            old(self).wf(),
            x < old(self)@.side(),
            y < old(self)@.side(),
            value <= old(self)@.side(),
        ensures
            final(self).wf(),
            final(self)@ == old(self)@.place(x as int, y as int, value),
    {
        proof {
            lemma_index_in_range(self.smn, x as int, y as int);
        }
        let at: usize = x + y * self.smn.side_length();
        self.memory.set(at, value);
    }

    /// The border above and below each band of blocks.
    fn header(&self) -> (text: &'static str)
        ensures
            text@ == header_text(self@.order),
    {
        match self.smn {
            SudokuMaxNumber::Nr4 => "+--+--+",
            SudokuMaxNumber::Nr9 => "+---+---+---+",
            SudokuMaxNumber::Nr16 => "+-----------+-----------+-----------+-----------+",
        }
    }

    /// Row `line_nr` as it is printed.
    fn line(&self, line_nr: usize) -> (text: String)
        requires
            self.wf(),
            line_nr < self@.side(),
        ensures
            text@ == line_text(self@, line_nr as int),
    {
        let sl: usize = self.smn.side_length();
        let sp: usize = self.smn.side_parts();
        let wide: bool = match self.smn {
            SudokuMaxNumber::Nr16 => true,
            _ => false,
        };
        let mut text = String::new();
        text.push('|');
        assert(text@ =~= line_text_upto(self@, line_nr as int, 0));
        for x in 0..sl
            invariant
                self.wf(),
                sl == self@.side(),
                sp == self@.block_side(),
                wide == (self@.order is Nr16),
                line_nr < sl,
                text@ == line_text_upto(self@, line_nr as int, x as nat),
        {
            let ghost before = text@;
            let value: usize = self.get(x, line_nr);
            if value >= 10 {
                text.push(digit(value / 10));
                text.push(digit(value % 10));
            } else {
                if wide {
                    text.push(' ');
                }
                text.push(digit(value));
            }
            assert(text@ =~= before + cell_text(self@.order, value));
            if (x + 1) % sp == 0 {
                text.push('|');
            } else if wide {
                text.push(' ');
            }
            assert(text@ =~= before + cell_text(self@.order, value) + cell_end(
                self@.order,
                x as int,
            ));
        }
        text
    }

    /// The grid as it is printed.
    pub fn to_string(&self) -> (text: String)
        requires
            self.wf(),
        ensures
            text@ == grid_text(self@),
    {
        let sp: usize = self.smn.side_parts();
        let lpp: usize = self.smn.lines_per_part();
        let mut output = String::new();
        assert(output@ =~= bands_text(self@, 0));
        for sp_i in 0..sp
            invariant
                self.wf(),
                sp == self@.block_side(),
                lpp == self@.block_side(),
                output@ == bands_text(self@, sp_i as nat),
        {
            let ghost above = output@;
            output.append(self.header());
            output.append("\n");
            assert(output@ =~= above + band_text_upto(self@, sp_i as int, 0));
            for line_nr in 0..lpp
                invariant
                    self.wf(),
                    sp == self@.block_side(),
                    lpp == self@.block_side(),
                    sp_i < sp,
                    output@ == above + band_text_upto(self@, sp_i as int, line_nr as nat),
            {
                proof {
                    self.smn.sizes();
                    lemma_join(sp as int, sp_i as int, line_nr as int);
                }
                let line = self.line(sp_i * lpp + line_nr);
                output.append(line.as_str());
                output.append("\n");
                assert(output@ =~= above + (band_text_upto(self@, sp_i as int, line_nr as nat)
                    + line_text(self@, sp_i * lpp + line_nr) + "\n"@));
            }
        }
        output.append(self.header());
        output
    }

    /// For each row, the values present in it.
    pub fn horizontals(&self) -> (sets: Vec<BitSet>)
        requires
            self.wf(),
        ensures
            sets@.len() == self@.side(),
            forall|y: int|
                0 <= y < self@.side() ==> members(#[trigger] sets@[y]) == self@.row_used(y),
    {
        let sl: usize = self.smn.side_length();
        let mut bitsets: Vec<BitSet> = Vec::with_capacity(sl);
        for y in 0..sl
            invariant
                self.wf(),
                sl == self@.side(),
                bitsets@.len() == y,
                forall|r: int| 0 <= r < y ==> members(#[trigger] bitsets@[r]) == self@.row_used(r),
        {
            let mut bitset = empty_set(sl + 1);
            proof {
                lemma_row_seen_step(self@, 0, y as int);
            }
            for x in 0..sl
                invariant
                    self.wf(),
                    sl == self@.side(),
                    y < sl,
                    members(bitset) == self@.row_seen(y as int, x as int),
            {
                let value: usize = self.get(x, y);
                insert(&mut bitset, value);
                proof {
                    lemma_row_seen_step(self@, x as int, y as int);
                }
            }
            remove(&mut bitset, 0);
            bitsets.push(bitset);
        }
        bitsets
    }

    /// For each column, the values present in it.
    pub fn verticals(&self) -> (sets: Vec<BitSet>)
        requires
            self.wf(),
        ensures
            sets@.len() == self@.side(),
            forall|x: int|
                0 <= x < self@.side() ==> members(#[trigger] sets@[x]) == self@.col_used(x),
    {
        let sl: usize = self.smn.side_length();
        let mut bitsets: Vec<BitSet> = Vec::with_capacity(sl);
        for x in 0..sl
            invariant
                self.wf(),
                sl == self@.side(),
                bitsets@.len() == x,
                forall|c: int| 0 <= c < x ==> members(#[trigger] bitsets@[c]) == self@.col_used(c),
        {
            let mut bitset = empty_set(sl + 1);
            proof {
                lemma_col_seen_step(self@, x as int, 0);
            }
            for y in 0..sl
                invariant
                    self.wf(),
                    sl == self@.side(),
                    x < sl,
                    members(bitset) == self@.col_seen(x as int, y as int),
            {
                let value: usize = self.get(x, y);
                insert(&mut bitset, value);
                proof {
                    lemma_col_seen_step(self@, x as int, y as int);
                }
            }
            remove(&mut bitset, 0);
            bitsets.push(bitset);
        }
        bitsets
    }

    /// For each block, the values present in it.
    pub fn squares(&self) -> (sets: Vec<BitSet>)
        requires
            self.wf(),
        ensures
            sets@.len() == self@.side(),
            forall|b: int|
                0 <= b < self@.side() ==> members(#[trigger] sets@[b]) == self@.block_used(b),
    {
        let sp: usize = self.smn.side_parts();
        let sl: usize = self.smn.side_length();
        let mut bitsets: Vec<BitSet> = Vec::with_capacity(sl);
        proof {
            self.smn.sizes();
            assert(0 * sp == 0) by (nonlinear_arith);
        }
        for yp in 0..sp
            invariant
                self.wf(),
                sp == self@.block_side(),
                sl == self@.side(),
                sl == sp * sp,
                bitsets@.len() == yp * sp,
                forall|b: int|
                    0 <= b < yp * sp ==> members(#[trigger] bitsets@[b]) == self@.block_used(b),
        {
            for xp in 0..sp
                invariant
                    self.wf(),
                    sp == self@.block_side(),
                    sl == self@.side(),
                    sl == sp * sp,
                    yp < sp,
                    bitsets@.len() == yp * sp + xp,
                    forall|b: int|
                        0 <= b < yp * sp + xp ==> members(#[trigger] bitsets@[b])
                            == self@.block_used(b),
            {
                let ghost blk: int = yp * sp + xp;
                let mut bitset = empty_set(sl + 1);
                proof {
                    lemma_block_seen_rows(self@, blk, 0);
                }
                for y in 0..sp
                    invariant
                        self.wf(),
                        sp == self@.block_side(),
                        sl == self@.side(),
                        yp < sp,
                        xp < sp,
                        blk == yp * sp + xp,
                        members(bitset) == self@.block_seen(blk, 0, y as int),
                {
                    for x in 0..sp
                        invariant
                            self.wf(),
                            sp == self@.block_side(),
                            sl == self@.side(),
                            yp < sp,
                            xp < sp,
                            y < sp,
                            blk == yp * sp + xp,
                            members(bitset) == self@.block_seen(blk, x as int, y as int),
                    {
                        proof {
                            lemma_block_seen_step(
                                self@,
                                xp as int,
                                yp as int,
                                x as int,
                                y as int,
                            );
                        }
                        let value: usize = self.get(xp * sp + x, yp * sp + y);
                        insert(&mut bitset, value);
                    }
                    proof {
                        lemma_block_seen_rows(self@, blk, y as int);
                    }
                }
                remove(&mut bitset, 0);
                proof {
                    lemma_block_seen_rows(self@, blk, 0);
                }
                bitsets.push(bitset);
            }
            proof {
                assert((yp + 1) * sp == yp * sp + sp) by (nonlinear_arith);
            }
        }
        proof {
            assert(sp * sp == sl);
        }
        bitsets
    }
}

impl std::str::FromStr for SudokuMaxNumber {
    type Err = ParseError;

    fn from_str(s: &str) -> (parsed: Result<Self, Self::Err>)
        ensures
            parsed == match order_named(s@) {
                Some(order) => Ok::<SudokuMaxNumber, ParseError>(order),
                None => Err(ParseError::Size),
            },
    {
        SudokuMaxNumber::parse(s)
    }
}

impl std::str::FromStr for Sudoku {
    type Err = ParseError;

    fn from_str(s: &str) -> (parsed: Result<Self, Self::Err>)
        ensures
            match parsed {
                Ok(sudoku) => sudoku.wf() && Some(sudoku@) == first_grid_of(s@),
                Err(error) => error == ParseError::CellCount && first_grid_of(s@) is None,
            },
    {
        Sudoku::parse(s)
    }
}

} // verus!
