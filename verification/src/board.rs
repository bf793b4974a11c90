//! The mathematical picture of a grid, and what holds of it.

use crate::sudoku::SudokuMaxNumber;
use vstd::prelude::*;

verus! {

/// The mathematical picture of a grid: its order and the value of every
/// cell, row after row. The value `0` stands for an empty cell.
pub struct Board {
    pub order: SudokuMaxNumber,
    pub cells: Seq<usize>,
}

impl Board {
    /// Number of cells on one side.
    pub open spec fn side(self) -> int {
        self.order.side()
    }

    /// Number of cells on one side of a block.
    pub open spec fn block_side(self) -> int {
        self.order.block_side()
    }

    /// `(x, y)` names a cell of the grid.
    pub open spec fn in_range(self, x: int, y: int) -> bool {
        0 <= x < self.side() && 0 <= y < self.side()
    }

    /// The value at column `x` of row `y`.
    pub open spec fn cell(self, x: int, y: int) -> usize {
        self.cells[self.order.index(x, y)]
    }

    /// Every cell is present and holds `0` or a value of the order.
    pub open spec fn wf(self) -> bool {
        &&& self.cells.len() == self.order.cell_count()
        &&& forall|i: int| 0 <= i < self.cells.len() ==> #[trigger] self.cells[i] <= self.side()
    }

    /// The grid of the given order with no cell filled.
    pub open spec fn blank(order: SudokuMaxNumber) -> Board {
        Board { order, cells: Seq::new(order.cell_count() as nat, |i: int| 0usize) }
    }

    /// The grid with `value` written at `(x, y)`.
    pub open spec fn place(self, x: int, y: int, value: usize) -> Board {
        Board { order: self.order, cells: self.cells.update(self.order.index(x, y), value) }
    }

    /// The block that `(x, y)` lies in; blocks are numbered row after row.
    pub open spec fn block_of(self, x: int, y: int) -> int {
        (y / self.block_side()) * self.block_side() + x / self.block_side()
    }

    /// The values present in row `y`.
    pub open spec fn row_used(self, y: int) -> Set<usize> {
        Set::new(
            |v: usize|
                v != 0 && exists|x: int| 0 <= x < self.side() && #[trigger] self.cell(x, y) == v,
        )
    }

    /// The values present in column `x`.
    pub open spec fn col_used(self, x: int) -> Set<usize> {
        Set::new(
            |v: usize|
                v != 0 && exists|y: int| 0 <= y < self.side() && #[trigger] self.cell(x, y) == v,
        )
    }

    /// The values present in block `b`.
    pub open spec fn block_used(self, b: int) -> Set<usize> {
        Set::new(
            |v: usize|
                v != 0 && exists|x: int, y: int|
                    self.in_range(x, y) && self.block_of(x, y) == b && #[trigger] self.cell(x, y)
                        == v,
        )
    }

    /// The values, `0` among them, that row `y` holds left of column
    /// `upto`.
    pub open spec fn row_seen(self, y: int, upto: int) -> Set<usize> {
        Set::new(|v: usize| exists|x: int| 0 <= x < upto && #[trigger] self.cell(x, y) == v)
    }

    /// The values, `0` among them, that column `x` holds above row `upto`.
    pub open spec fn col_seen(self, x: int, upto: int) -> Set<usize> {
        Set::new(|v: usize| exists|y: int| 0 <= y < upto && #[trigger] self.cell(x, y) == v)
    }

    /// The values, `0` among them, that block `b` holds in the cells that
    /// come, row after row inside the block, before the cell at offset
    /// `(dx, dy)` of the block.
    pub open spec fn block_seen(self, b: int, dx: int, dy: int) -> Set<usize> {
        Set::new(
            |v: usize|
                exists|x: int, y: int|
                    self.in_range(x, y) && self.block_of(x, y) == b && (y % self.block_side() < dy
                        || (y % self.block_side() == dy && x % self.block_side() < dx))
                        && #[trigger] self.cell(x, y) == v,
        )
    }

    /// The values that may still go to `(x, y)`: those of the order that
    /// neither its row, nor its column, nor its block holds.
    pub open spec fn candidates(self, x: int, y: int) -> Set<usize> {
        Set::new(
            |v: usize|
                1 <= v <= self.side() && !self.row_used(y).contains(v) && !self.col_used(
                    x,
                ).contains(v) && !self.block_used(self.block_of(x, y)).contains(v),
        )
    }

    /// `(x, y)` is a cell of the grid and empty.
    pub open spec fn is_empty_at(self, x: int, y: int) -> bool {
        self.in_range(x, y) && self.cell(x, y) == 0
    }

    /// No cell is empty.
    pub open spec fn is_complete(self) -> bool {
        forall|x: int, y: int| self.in_range(x, y) ==> #[trigger] self.cell(x, y) != 0
    }

    /// Two cells share a row, a column or a block.
    pub open spec fn sees(self, x1: int, y1: int, x2: int, y2: int) -> bool {
        y1 == y2 || x1 == x2 || self.block_of(x1, y1) == self.block_of(x2, y2)
    }

    /// No value stands twice in a row, a column or a block.
    pub open spec fn consistent(self) -> bool {
        forall|x1: int, y1: int, x2: int, y2: int|
            self.in_range(x1, y1) && self.in_range(x2, y2) && (x1 != x2 || y1 != y2) && self.sees(
                x1,
                y1,
                x2,
                y2,
            ) && #[trigger] self.cell(x1, y1) != 0 ==> self.cell(x1, y1) != #[trigger] self.cell(
                x2,
                y2,
            )
    }

    /// The cells `(x1, y1)` and `(x2, y2)` share a row, a column or a
    /// block and hold the same value.
    pub open spec fn clash(self, x1: int, y1: int, x2: int, y2: int) -> bool {
        &&& self.in_range(x1, y1)
        &&& self.in_range(x2, y2)
        &&& (x1 != x2 || y1 != y2)
        &&& self.sees(x1, y1, x2, y2)
        &&& self.cell(x1, y1) != 0
        &&& self.cell(x1, y1) == self.cell(x2, y2)
    }

    /// No two cells clash but `(x1, y1)` and `(x2, y2)`.
    pub open spec fn only_clash(self, x1: int, y1: int, x2: int, y2: int) -> bool {
        forall|a: int, b: int, c: int, d: int| #[trigger]
            self.clash(a, b, c, d) ==> (a == x1 && b == y1 && c == x2 && d == y2) || (a == x2 && b
                == y2 && c == x1 && d == y1)
    }

    /// Every cell that `base` leaves empty holds a value that no cell
    /// sharing a row, a column or a block with it holds.
    pub open spec fn fills_lawfully(self, base: Board) -> bool {
        forall|x: int, y: int, x2: int, y2: int|
            base.is_empty_at(x, y) && self.in_range(x2, y2) && (x != x2 || y != y2)
                && #[trigger] self.sees(x, y, x2, y2) ==> self.cell(x, y) != self.cell(x2, y2)
    }

    /// `self` keeps every value that `base` has filled in.
    pub open spec fn extends(self, base: Board) -> bool {
        &&& self.order == base.order
        &&& forall|x: int, y: int|
            base.in_range(x, y) && #[trigger] base.cell(x, y) != 0 ==> self.cell(x, y)
                == base.cell(x, y)
    }

    /// `self` is a finished, rule-abiding grid that completes `base`.
    pub open spec fn is_solution_of(self, base: Board) -> bool {
        &&& self.wf()
        &&& self.is_complete()
        &&& self.consistent()
        &&& self.extends(base)
    }
}

/// Facts about `x + y * s` for the three sides that a grid can have.
pub proof fn lemma_flat(s: int, x: int, y: int)
    requires
        s == 4 || s == 9 || s == 16,
        0 <= x < s,
        0 <= y < s,
    ensures
        0 <= x + y * s < s * s,
        (x + y * s) % s == x,
        (x + y * s) / s == y,
{
    if s == 4 {
    } else if s == 9 {
    } else {
    }
}

/// Facts about `i % s` and `i / s` for the three sides that a grid can
/// have.
pub proof fn lemma_unflat(s: int, i: int)
    requires
        s == 4 || s == 9 || s == 16,
        0 <= i < s * s,
    ensures
        0 <= i % s < s,
        0 <= i / s < s,
        i % s + (i / s) * s == i,
{
    if s == 4 {
    } else if s == 9 {
    } else {
    }
}

/// Facts about a coordinate and its block, for the three block sides
/// that a grid can have.
pub proof fn lemma_split(p: int, x: int)
    requires
        p == 2 || p == 3 || p == 4,
        0 <= x < p * p,
    ensures
        0 <= x / p < p,
        0 <= x % p < p,
        (x / p) * p + x % p == x,
{
    if p == 2 {
    } else if p == 3 {
    } else {
    }
}

/// Facts about the coordinate at offset `d` of block number `q`, for the
/// three block sides that a grid can have.
pub proof fn lemma_join(p: int, q: int, d: int)
    requires
        p == 2 || p == 3 || p == 4,
        0 <= q < p,
        0 <= d < p,
    ensures
        0 <= q * p + d < p * p,
        (q * p + d) / p == q,
        (q * p + d) % p == d,
{
    if p == 2 {
    } else if p == 3 {
    } else {
    }
}

/// A cell's position in the flat sequence lies inside it.
pub proof fn lemma_index_in_range(order: SudokuMaxNumber, x: int, y: int)
    requires
        0 <= x < order.side(),
        0 <= y < order.side(),
    ensures
        0 <= order.index(x, y) < order.cell_count(),
{
    order.sizes();
    lemma_flat(order.side(), x, y);
}

/// Different cells have different positions in the flat sequence.
pub proof fn lemma_index_injective(order: SudokuMaxNumber, x1: int, y1: int, x2: int, y2: int)
    requires
        0 <= x1 < order.side(),
        0 <= y1 < order.side(),
        0 <= x2 < order.side(),
        0 <= y2 < order.side(),
        order.index(x1, y1) == order.index(x2, y2),
    ensures
        x1 == x2,
        y1 == y2,
{
    lemma_flat(order.side(), x1, y1);
    lemma_flat(order.side(), x2, y2);
}

/// Every position of the flat sequence is the position of a cell.
pub proof fn lemma_index_onto(order: SudokuMaxNumber, i: int)
    requires
        0 <= i < order.cell_count(),
    ensures
        0 <= i % order.side() < order.side(),
        0 <= i / order.side() < order.side(),
        order.index(i % order.side(), i / order.side()) == i,
{
    order.sizes();
    lemma_unflat(order.side(), i);
}

/// The block of a cell is one of the grid's blocks; two cells lie in one
/// block exactly if they lie in the same block row and block column.
pub proof fn lemma_block_of(b: Board, x: int, y: int, xp: int, yp: int)
    requires
        b.in_range(x, y),
        0 <= xp < b.block_side(),
        0 <= yp < b.block_side(),
    ensures
        0 <= b.block_of(x, y) < b.side(),
        0 <= yp * b.block_side() + xp < b.side(),
        b.block_of(x, y) == yp * b.block_side() + xp <==> (x / b.block_side() == xp && y
            / b.block_side() == yp),
{
    let p = b.block_side();
    b.order.sizes();
    lemma_split(p, x);
    lemma_split(p, y);
    lemma_join(p, y / p, x / p);
    lemma_join(p, yp, xp);
}

/// Row `y` read up to and with column `x` holds what it held before
/// column `x`, and the value at `(x, y)`.
pub proof fn lemma_row_seen_step(b: Board, x: int, y: int)
    requires
        0 <= x,
    ensures
        b.row_seen(y, x + 1) == b.row_seen(y, x).insert(b.cell(x, y)),
        b.row_seen(y, 0) == Set::<usize>::empty(),
        b.row_used(y) == b.row_seen(y, b.side()).remove(0),
{
    assert(b.row_seen(y, x + 1) =~= b.row_seen(y, x).insert(b.cell(x, y)));
    assert(b.row_seen(y, 0) =~= Set::<usize>::empty());
    assert(b.row_used(y) =~= b.row_seen(y, b.side()).remove(0));
}

/// Column `x` read up to and with row `y` holds what it held before row
/// `y`, and the value at `(x, y)`.
pub proof fn lemma_col_seen_step(b: Board, x: int, y: int)
    requires
        0 <= y,
    ensures
        b.col_seen(x, y + 1) == b.col_seen(x, y).insert(b.cell(x, y)),
        b.col_seen(x, 0) == Set::<usize>::empty(),
        b.col_used(x) == b.col_seen(x, b.side()).remove(0),
{
    assert(b.col_seen(x, y + 1) =~= b.col_seen(x, y).insert(b.cell(x, y)));
    assert(b.col_seen(x, 0) =~= Set::<usize>::empty());
    assert(b.col_used(x) =~= b.col_seen(x, b.side()).remove(0));
}

/// The cell at offset `(dx, dy)` of the block in block column `xp` and
/// block row `yp` lies in the grid and in that block; reading the block
/// one cell further adds that cell's value.
pub proof fn lemma_block_seen_step(b: Board, xp: int, yp: int, dx: int, dy: int)
    requires
        0 <= xp < b.block_side(),
        0 <= yp < b.block_side(),
        0 <= dx < b.block_side(),
        0 <= dy < b.block_side(),
    ensures
        b.in_range(xp * b.block_side() + dx, yp * b.block_side() + dy),
        0 <= yp * b.block_side() + xp < b.side(),
        b.block_of(xp * b.block_side() + dx, yp * b.block_side() + dy) == yp * b.block_side() + xp,
        b.block_seen(yp * b.block_side() + xp, dx + 1, dy) == b.block_seen(
            yp * b.block_side() + xp,
            dx,
            dy,
        ).insert(b.cell(xp * b.block_side() + dx, yp * b.block_side() + dy)),
{
    let p = b.block_side();
    let blk = yp * p + xp;
    let cx = xp * p + dx;
    let cy = yp * p + dy;
    let before = b.block_seen(blk, dx, dy);
    let after = b.block_seen(blk, dx + 1, dy);
    b.order.sizes();
    lemma_join(p, xp, dx);
    lemma_join(p, yp, dy);
    lemma_block_of(b, cx, cy, xp, yp);
    assert forall|v: usize| after.contains(v) implies before.insert(b.cell(cx, cy)).contains(
        v,
    ) by {
        let (x, y) = choose|x: int, y: int|
            b.in_range(x, y) && b.block_of(x, y) == blk && (y % p < dy || (y % p == dy && x % p
                < dx + 1)) && #[trigger] b.cell(x, y) == v;
        lemma_block_of(b, x, y, xp, yp);
        lemma_split(p, x);
        lemma_split(p, y);
        if y % p == dy && x % p == dx {
            assert(x == cx && y == cy);
        } else {
            assert(b.cell(x, y) == v);
        }
    }
    assert forall|v: usize| before.insert(b.cell(cx, cy)).contains(v) implies after.contains(
        v,
    ) by {
        if v == b.cell(cx, cy) {
            assert(b.cell(cx, cy) == v);
        } else {
            let (x, y) = choose|x: int, y: int|
                b.in_range(x, y) && b.block_of(x, y) == blk && (y % p < dy || (y % p == dy && x
                    % p < dx)) && #[trigger] b.cell(x, y) == v;
            assert(b.cell(x, y) == v);
        }
    }
    assert(after =~= before.insert(b.cell(cx, cy)));
}

/// A block read from its first cell holds nothing yet; read to the end of
/// one of its rows it holds what it holds at the start of the next; read
/// to its end it holds, `0` aside, the values present in the block.
pub proof fn lemma_block_seen_rows(b: Board, blk: int, dy: int)
    requires
        0 <= dy,
    ensures
        b.block_seen(blk, 0, 0) == Set::<usize>::empty(),
        b.block_seen(blk, b.block_side(), dy) == b.block_seen(blk, 0, dy + 1),
        b.block_used(blk) == b.block_seen(blk, 0, b.block_side()).remove(0),
{
    let p = b.block_side();
    b.order.sizes();
    assert forall|v: usize| !b.block_seen(blk, 0, 0).contains(v) by {
        if b.block_seen(blk, 0, 0).contains(v) {
            let (x, y) = choose|x: int, y: int|
                b.in_range(x, y) && b.block_of(x, y) == blk && (y % p < 0 || (y % p == 0 && x % p
                    < 0)) && #[trigger] b.cell(x, y) == v;
            lemma_split(p, x);
            lemma_split(p, y);
        }
    }
    assert(b.block_seen(blk, 0, 0) =~= Set::<usize>::empty());
    assert forall|v: usize|
        b.block_seen(blk, p, dy).contains(v) <==> b.block_seen(blk, 0, dy + 1).contains(v) by {
        if b.block_seen(blk, p, dy).contains(v) {
            let (x, y) = choose|x: int, y: int|
                b.in_range(x, y) && b.block_of(x, y) == blk && (y % p < dy || (y % p == dy && x % p
                    < p)) && #[trigger] b.cell(x, y) == v;
            assert(b.cell(x, y) == v);
        }
        if b.block_seen(blk, 0, dy + 1).contains(v) {
            let (x, y) = choose|x: int, y: int|
                b.in_range(x, y) && b.block_of(x, y) == blk && (y % p < dy + 1 || (y % p == dy + 1
                    && x % p < 0)) && #[trigger] b.cell(x, y) == v;
            lemma_split(p, x);
            assert(b.cell(x, y) == v);
        }
    }
    assert(b.block_seen(blk, p, dy) =~= b.block_seen(blk, 0, dy + 1));
    assert forall|v: usize|
        b.block_used(blk).contains(v) <==> b.block_seen(blk, 0, p).remove(0).contains(v) by {
        if b.block_used(blk).contains(v) {
            let (x, y) = choose|x: int, y: int|
                b.in_range(x, y) && b.block_of(x, y) == blk && #[trigger] b.cell(x, y) == v;
            lemma_split(p, y);
            assert(b.cell(x, y) == v);
        }
        if b.block_seen(blk, 0, p).remove(0).contains(v) {
            let (x, y) = choose|x: int, y: int|
                b.in_range(x, y) && b.block_of(x, y) == blk && (y % p < p || (y % p == p && x % p
                    < 0)) && #[trigger] b.cell(x, y) == v;
            assert(b.cell(x, y) == v);
        }
    }
    assert(b.block_used(blk) =~= b.block_seen(blk, 0, p).remove(0));
}

/// In a well-formed grid every cell, named by its coordinates, holds `0`
/// or a value of the order.
pub proof fn lemma_cells_bounded(b: Board)
    requires
        b.wf(),
    ensures
        forall|x: int, y: int| b.in_range(x, y) ==> #[trigger] b.cell(x, y) <= b.side(),
{
    assert forall|x: int, y: int| b.in_range(x, y) implies #[trigger] b.cell(x, y) <= b.side() by {
        lemma_index_in_range(b.order, x, y);
    }
}

/// Writing a value changes the cell written to and no other.
pub proof fn lemma_place_cell(b: Board, x: int, y: int, value: usize, x2: int, y2: int)
    requires
        b.cells.len() == b.order.cell_count(),
        b.in_range(x, y),
        b.in_range(x2, y2),
    ensures
        b.place(x, y, value).cell(x2, y2) == if x2 == x && y2 == y {
            value
        } else {
            b.cell(x2, y2)
        },
{
    lemma_index_in_range(b.order, x, y);
    lemma_index_in_range(b.order, x2, y2);
    if b.order.index(x, y) == b.order.index(x2, y2) {
        lemma_index_injective(b.order, x, y, x2, y2);
    }
}

/// Two grids of one order that agree on every cell are the same grid.
pub proof fn lemma_same_cells(a: Board, b: Board)
    requires
        a.order == b.order,
        a.cells.len() == a.order.cell_count(),
        b.cells.len() == b.order.cell_count(),
        forall|x: int, y: int| a.in_range(x, y) ==> #[trigger] a.cell(x, y) == b.cell(x, y),
    ensures
        a == b,
{
    assert forall|i: int| 0 <= i < a.cells.len() implies a.cells[i] == b.cells[i] by {
        lemma_index_onto(a.order, i);
        let x = i % a.order.side();
        let y = i / a.order.side();
        assert(a.cell(x, y) == b.cell(x, y));
    }
    assert(a.cells =~= b.cells);
}

/// Writing a value changes the cell written to and no other, whichever
/// cell is then read.
pub proof fn lemma_place_cells(b: Board, x: int, y: int, value: usize)
    requires
        b.cells.len() == b.order.cell_count(),
        b.in_range(x, y),
    ensures
        b.place(x, y, value).order == b.order,
        b.place(x, y, value).cells.len() == b.cells.len(),
        forall|x2: int, y2: int|
            b.in_range(x2, y2) ==> #[trigger] b.place(x, y, value).cell(x2, y2) == if x2 == x && y2
                == y {
                value
            } else {
                b.cell(x2, y2)
            },
{
    assert forall|x2: int, y2: int| b.in_range(x2, y2) implies #[trigger] b.place(
        x,
        y,
        value,
    ).cell(x2, y2) == if x2 == x && y2 == y {
        value
    } else {
        b.cell(x2, y2)
    } by {
        lemma_place_cell(b, x, y, value, x2, y2);
    }
}

/// Writing a value of the order keeps a grid well-formed.
pub proof fn lemma_place_wf(b: Board, x: int, y: int, value: usize)
    requires
        b.wf(),
        b.in_range(x, y),
        value <= b.side(),
    ensures
        b.place(x, y, value).wf(),
{
    lemma_index_in_range(b.order, x, y);
}

/// Filling an empty cell adds the value to what the cell's row, column
/// and block hold, and leaves every other row, column and block as it
/// was.
pub proof fn lemma_place_used(b: Board, x: int, y: int, value: usize)
    requires
        b.wf(),
        b.is_empty_at(x, y),
        value != 0,
    ensures
        forall|r: int|
            0 <= r < b.side() ==> #[trigger] b.place(x, y, value).row_used(r) == if r == y {
                b.row_used(r).insert(value)
            } else {
                b.row_used(r)
            },
        forall|c: int|
            0 <= c < b.side() ==> #[trigger] b.place(x, y, value).col_used(c) == if c == x {
                b.col_used(c).insert(value)
            } else {
                b.col_used(c)
            },
        forall|k: int|
            #[trigger] b.place(x, y, value).block_used(k) == if k == b.block_of(x, y) {
                b.block_used(k).insert(value)
            } else {
                b.block_used(k)
            },
{
    let a = b.place(x, y, value);
    lemma_place_cells(b, x, y, value);
    assert forall|r: int| 0 <= r < b.side() implies #[trigger] a.row_used(r) == if r == y {
        b.row_used(r).insert(value)
    } else {
        b.row_used(r)
    } by {
        let want = if r == y {
            b.row_used(r).insert(value)
        } else {
            b.row_used(r)
        };
        assert forall|v: usize| a.row_used(r).contains(v) implies want.contains(v) by {
            let x2 = choose|x2: int| 0 <= x2 < a.side() && #[trigger] a.cell(x2, r) == v;
            if r == y && x2 == x {
            } else {
                assert(b.cell(x2, r) == v);
            }
        }
        assert forall|v: usize| want.contains(v) implies a.row_used(r).contains(v) by {
            if r == y && v == value {
                assert(a.cell(x, y) == v);
            } else {
                let x2 = choose|x2: int| 0 <= x2 < b.side() && #[trigger] b.cell(x2, r) == v;
                assert(a.cell(x2, r) == v);
            }
        }
        assert(a.row_used(r) =~= want);
    }
    assert forall|c: int| 0 <= c < b.side() implies #[trigger] a.col_used(c) == if c == x {
        b.col_used(c).insert(value)
    } else {
        b.col_used(c)
    } by {
        let want = if c == x {
            b.col_used(c).insert(value)
        } else {
            b.col_used(c)
        };
        assert forall|v: usize| a.col_used(c).contains(v) implies want.contains(v) by {
            let y2 = choose|y2: int| 0 <= y2 < a.side() && #[trigger] a.cell(c, y2) == v;
            if c == x && y2 == y {
            } else {
                assert(b.cell(c, y2) == v);
            }
        }
        assert forall|v: usize| want.contains(v) implies a.col_used(c).contains(v) by {
            if c == x && v == value {
                assert(a.cell(x, y) == v);
            } else {
                let y2 = choose|y2: int| 0 <= y2 < b.side() && #[trigger] b.cell(c, y2) == v;
                assert(a.cell(c, y2) == v);
            }
        }
        assert(a.col_used(c) =~= want);
    }
    assert forall|k: int|
        #[trigger] a.block_used(k) == if k == b.block_of(x, y) {
            b.block_used(k).insert(value)
        } else {
            b.block_used(k)
        } by {
        let want = if k == b.block_of(x, y) {
            b.block_used(k).insert(value)
        } else {
            b.block_used(k)
        };
        assert forall|v: usize| a.block_used(k).contains(v) implies want.contains(v) by {
            let (x2, y2) = choose|x2: int, y2: int|
                a.in_range(x2, y2) && a.block_of(x2, y2) == k && #[trigger] a.cell(x2, y2) == v;
            if x2 == x && y2 == y {
            } else {
                assert(b.cell(x2, y2) == v);
            }
        }
        assert forall|v: usize| want.contains(v) implies a.block_used(k).contains(v) by {
            if k == b.block_of(x, y) && v == value {
                assert(a.cell(x, y) == v);
            } else {
                let (x2, y2) = choose|x2: int, y2: int|
                    b.in_range(x2, y2) && b.block_of(x2, y2) == k && #[trigger] b.cell(x2, y2)
                        == v;
                assert(a.cell(x2, y2) == v);
            }
        }
        assert(a.block_used(k) =~= want);
    }
}

/// The values present in the row, the column and the block of a cell of
/// a well-formed grid are values of the order, and so are the cell's
/// candidates.
pub proof fn lemma_used_bounded(b: Board, x: int, y: int)
    requires
        b.wf(),
        b.in_range(x, y),
    ensures
        forall|v: usize| b.row_used(y).contains(v) ==> 1 <= v <= b.side(),
        forall|v: usize| b.col_used(x).contains(v) ==> 1 <= v <= b.side(),
        forall|v: usize| b.block_used(b.block_of(x, y)).contains(v) ==> 1 <= v <= b.side(),
        forall|v: usize| b.candidates(x, y).contains(v) ==> 1 <= v <= b.side(),
{
    lemma_cells_bounded(b);
    assert forall|v: usize| b.row_used(y).contains(v) implies 1 <= v <= b.side() by {
        let x2 = choose|x2: int| 0 <= x2 < b.side() && #[trigger] b.cell(x2, y) == v;
        assert(b.in_range(x2, y));
    }
    assert forall|v: usize| b.col_used(x).contains(v) implies 1 <= v <= b.side() by {
        let y2 = choose|y2: int| 0 <= y2 < b.side() && #[trigger] b.cell(x, y2) == v;
        assert(b.in_range(x, y2));
    }
    assert forall|v: usize| b.block_used(b.block_of(x, y)).contains(v) implies 1 <= v
        <= b.side() by {
        let (x2, y2) = choose|x2: int, y2: int|
            b.in_range(x2, y2) && b.block_of(x2, y2) == b.block_of(x, y) && #[trigger] b.cell(
                x2,
                y2,
            ) == v;
        assert(b.cell(x2, y2) <= b.side());
    }
}

} // verus!
