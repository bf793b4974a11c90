//! What holds of reading and printing.

use crate::board::{lemma_flat, lemma_join, Board};
use crate::sudoku::{first_grid_of, grid_of, SudokuMaxNumber};
use crate::text::{
    accepted, band_text_upto, bands_text, cell_end, cell_text, cell_value, digit_char, discarded,
    grid_text, header_text, lemma_accepted_bounded, line_text, line_text_upto,
};
use vstd::prelude::*;

verus! {

/// The values of row `y`, from its first column on.
pub open spec fn row_cells(board: Board, y: int) -> Seq<usize> {
    Seq::new(board.side() as nat, |x: int| board.cell(x, y))
}

/// The values of `n` rows, from row `from` on.
pub open spec fn rows_cells(board: Board, from: int, n: nat) -> Seq<usize>
    decreases n,
{
    if n == 0 {
        Seq::empty()
    } else {
        rows_cells(board, from, (n - 1) as nat) + row_cells(board, from + n - 1)
    }
}

/// A text with fewer cell values than a grid of the given order has
/// cells gives no grid of that order.
pub proof fn lemma_too_few_values(order: SudokuMaxNumber, text: Seq<char>)
    requires
        text.len() - discarded(text) < order.cell_count(),
    ensures
        grid_of(order, text) is None,
{
    lemma_accepted_bounded(order, text);
}

/// A text with fewer cell values than the smallest grid has cells gives
/// no grid of any order.
pub proof fn lemma_too_short(text: Seq<char>)
    requires
        text.len() - discarded(text) < 16,
    ensures
        first_grid_of(text) is None,
{
    lemma_too_few_values(SudokuMaxNumber::Nr4, text);
    lemma_too_few_values(SudokuMaxNumber::Nr9, text);
    lemma_too_few_values(SudokuMaxNumber::Nr16, text);
}

/// Two texts, one after the other, give the values of the first, then
/// those of the second.
pub proof fn lemma_accepted_concat(order: SudokuMaxNumber, a: Seq<char>, b: Seq<char>)
    ensures
        accepted(order, a + b) == accepted(order, a) + accepted(order, b),
    decreases b.len(),
{
    if b.len() == 0 {
        assert(a + b =~= a);
        assert(accepted(order, a) + accepted(order, b) =~= accepted(order, a));
    } else {
        assert((a + b).drop_last() =~= a + b.drop_last());
        assert((a + b).last() == b.last());
        lemma_accepted_concat(order, a, b.drop_last());
        let head = accepted(order, a);
        let tail = accepted(order, b.drop_last());
        match cell_value(b.last()) {
            Some(d) => {
                if d <= order.side() {
                    assert((head + tail).push(d) =~= head + tail.push(d));
                }
            },
            None => {},
        }
    }
}

/// A text without a digit gives no value.
pub proof fn lemma_accepted_plain(order: SudokuMaxNumber, text: Seq<char>)
    requires
        forall|i: int| 0 <= i < text.len() ==> cell_value(#[trigger] text[i]) is None,
    ensures
        accepted(order, text) == Seq::<usize>::empty(),
    decreases text.len(),
{
    if text.len() > 0 {
        assert(cell_value(text[text.len() - 1]) is None);
        lemma_accepted_plain(order, text.drop_last());
    }
}

/// The borders and the line feed give no value.
pub proof fn lemma_frame_plain(order: SudokuMaxNumber)
    ensures
        accepted(order, header_text(order)) == Seq::<usize>::empty(),
        accepted(order, "\n"@) == Seq::<usize>::empty(),
{
    reveal_strlit("+--+--+");
    reveal_strlit("+---+---+---+");
    reveal_strlit("+-----------+-----------+-----------+-----------+");
    reveal_strlit("\n");
    let h = header_text(order);
    assert forall|i: int| 0 <= i < h.len() implies cell_value(#[trigger] h[i]) is None by {
        assert(h[i] == '+' || h[i] == '-');
    }
    lemma_accepted_plain(order, h);
    lemma_accepted_plain(order, "\n"@);
}

/// A value below ten that the order allows is printed so that it is
/// read again as itself, and what follows a cell gives no value.
pub proof fn lemma_cell_reread(order: SudokuMaxNumber, value: usize, x: int)
    requires
        value < 10,
        value <= order.side(),
    ensures
        accepted(order, cell_text(order, value) + cell_end(order, x)) == seq![value],
{
    let d = digit_char(value as int);
    assert(cell_value(d) == Some(value));
    assert(cell_value(' ') is None);
    assert(cell_value('|') is None);
    let text = cell_text(order, value);
    let end = cell_end(order, x);
    lemma_accepted_concat(order, text, end);
    lemma_accepted_plain(order, end);
    if order is Nr16 {
        assert(text =~= seq![' '] + seq![d]);
        lemma_accepted_concat(order, seq![' '], seq![d]);
        lemma_accepted_plain(order, seq![' ']);
    }
    let nothing = Seq::<char>::empty();
    assert(accepted(order, nothing) =~= Seq::<usize>::empty());
    assert(seq![d].drop_last() =~= nothing);
    assert(seq![d].last() == d);
    assert(Seq::<usize>::empty().push(value) =~= seq![value]);
    assert(accepted(order, seq![d]) =~= seq![value]);
    assert(accepted(order, text) =~= seq![value]);
    assert(seq![value] + Seq::<usize>::empty() =~= seq![value]);
}

/// A line up to a column gives the values of its row up to that column.
pub proof fn lemma_line_reread(board: Board, y: int, n: nat)
    requires
        board.wf(),
        forall|i: int| 0 <= i < board.cells.len() ==> #[trigger] board.cells[i] < 10,
        0 <= y < board.side(),
        n <= board.side(),
    ensures
        accepted(board.order, line_text_upto(board, y, n)) == Seq::new(
            n,
            |x: int| board.cell(x, y),
        ),
    decreases n,
{
    let order = board.order;
    if n == 0 {
        assert(cell_value('|') is None);
        lemma_accepted_plain(order, seq!['|']);
        assert(accepted(order, line_text_upto(board, y, n)) =~= Seq::new(
            n,
            |x: int| board.cell(x, y),
        ));
    } else {
        lemma_line_reread(board, y, (n - 1) as nat);
        crate::board::lemma_index_in_range(order, n - 1, y);
        let value = board.cell(n - 1, y);
        let before = line_text_upto(board, y, (n - 1) as nat);
        let piece = cell_text(order, value) + cell_end(order, n - 1);
        assert(line_text_upto(board, y, n) =~= before + piece);
        lemma_accepted_concat(order, before, piece);
        lemma_cell_reread(order, value, n - 1);
        assert(Seq::new((n - 1) as nat, |x: int| board.cell(x, y)) + seq![value] =~= Seq::new(
            n,
            |x: int| board.cell(x, y),
        ));
    }
}

/// A band up to one of its rows gives the values of its rows up to that
/// row.
pub proof fn lemma_band_reread(board: Board, band: int, n: nat)
    requires
        board.wf(),
        forall|i: int| 0 <= i < board.cells.len() ==> #[trigger] board.cells[i] < 10,
        0 <= band < board.block_side(),
        n <= board.block_side(),
    ensures
        accepted(board.order, band_text_upto(board, band, n)) == rows_cells(
            board,
            band * board.block_side(),
            n,
        ),
    decreases n,
{
    let order = board.order;
    let p = board.block_side();
    lemma_frame_plain(order);
    if n == 0 {
        lemma_accepted_concat(order, header_text(order), "\n"@);
    } else {
        lemma_band_reread(board, band, (n - 1) as nat);
        order.sizes();
        lemma_join(p, band, n - 1);
        let y = band * p + n - 1;
        let before = band_text_upto(board, band, (n - 1) as nat);
        lemma_line_reread(board, y, board.side() as nat);
        lemma_accepted_concat(order, before + line_text(board, y), "\n"@);
        lemma_accepted_concat(order, before, line_text(board, y));
        assert(accepted(order, band_text_upto(board, band, n)) =~= rows_cells(board, band * p, n));
    }
}

/// The values of some rows, then those of the rows that follow them,
/// are the values of all these rows.
pub proof fn lemma_rows_concat(board: Board, from: int, n: nat, m: nat)
    ensures
        rows_cells(board, from, n) + rows_cells(board, from + n, m) == rows_cells(
            board,
            from,
            n + m,
        ),
    decreases m,
{
    if m == 0 {
        assert(rows_cells(board, from, n) + rows_cells(board, from + n, m) =~= rows_cells(
            board,
            from,
            n + m,
        ));
    } else {
        lemma_rows_concat(board, from, n, (m - 1) as nat);
        assert(rows_cells(board, from, n) + rows_cells(board, from + n, m) =~= rows_cells(
            board,
            from,
            n + m,
        ));
    }
}

/// The first bands give the values of their rows.
pub proof fn lemma_bands_reread(board: Board, k: nat)
    requires
        board.wf(),
        forall|i: int| 0 <= i < board.cells.len() ==> #[trigger] board.cells[i] < 10,
        k <= board.block_side(),
    ensures
        accepted(board.order, bands_text(board, k)) == rows_cells(
            board,
            0,
            (k * board.block_side()) as nat,
        ),
    decreases k,
{
    let order = board.order;
    let p = board.block_side();
    if k == 0 {
        assert(0 * p == 0) by (nonlinear_arith);
    } else {
        lemma_bands_reread(board, (k - 1) as nat);
        lemma_band_reread(board, k - 1, p as nat);
        lemma_accepted_concat(
            order,
            bands_text(board, (k - 1) as nat),
            band_text_upto(board, k - 1, p as nat),
        );
        assert((k - 1) * p + p == k * p && (k - 1) * p >= 0) by (nonlinear_arith)
            requires
                k >= 1,
                p >= 0,
        ;
        lemma_rows_concat(board, 0, ((k - 1) * p) as nat, p as nat);
    }
}

/// The values of the first rows are the first values of the grid.
pub proof fn lemma_rows_are_cells(board: Board, n: nat)
    requires
        board.cells.len() == board.order.cell_count(),
        n <= board.side(),
    ensures
        rows_cells(board, 0, n) == board.cells.subrange(0, n * board.side()),
    decreases n,
{
    let s = board.side();
    board.order.sizes();
    if n == 0 {
        assert(0 * s == 0) by (nonlinear_arith);
        assert(rows_cells(board, 0, n) =~= board.cells.subrange(0, n * s));
    } else {
        lemma_rows_are_cells(board, (n - 1) as nat);
        assert((n - 1) * s + s == n * s && (n - 1) * s >= 0 && n * s <= s * s) by (nonlinear_arith)
            requires
                1 <= n <= s,
        ;
        let head = rows_cells(board, 0, (n - 1) as nat);
        let row = row_cells(board, n - 1);
        assert forall|i: int| 0 <= i < n * s implies (head + row)[i] == board.cells[i] by {
            if i >= (n - 1) * s {
                let x = i - (n - 1) * s;
                assert(row[x] == board.cell(x, n - 1));
            }
        }
        assert(rows_cells(board, 0, n) =~= board.cells.subrange(0, n * s));
    }
}

/// A printed grid is read again as the grid it was printed from. This
/// holds of every well-formed grid of order 4 or 9, and of those of
/// order 16 that hold no value above nine: a larger value is printed
/// with two digits, which are read as two cells.
pub proof fn lemma_print_then_read(board: Board)
    requires
        board.wf(),
        board.order is Nr16 ==> forall|i: int|
            0 <= i < board.cells.len() ==> #[trigger] board.cells[i] < 10,
    ensures
        accepted(board.order, grid_text(board)) == board.cells,
        grid_of(board.order, grid_text(board)) == Some(board),
{
    let order = board.order;
    let p = board.block_side();
    order.sizes();
    lemma_bands_reread(board, p as nat);
    lemma_frame_plain(order);
    lemma_accepted_concat(order, bands_text(board, p as nat), header_text(order));
    lemma_rows_are_cells(board, board.side() as nat);
    assert(board.cells.subrange(0, board.side() * board.side()) =~= board.cells);
    assert(accepted(order, grid_text(board)) =~= board.cells);
}

} // verus!
