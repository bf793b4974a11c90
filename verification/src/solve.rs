//! The search: a tree of decisions that share their past.

use crate::bits::{
    ascending, copy, count, filled, insert, members, positions, remove, symmetric_difference_with,
    union_with,
};
use crate::board::{
    lemma_block_of, lemma_cells_bounded, lemma_join, lemma_place_cell, lemma_place_cells,
    lemma_place_used, lemma_place_wf, lemma_same_cells, lemma_split, lemma_used_bounded, Board,
};
use crate::search::{
    lemma_child, lemma_choices_are, lemma_most_constrained, lemma_most_constrained_unique,
    precedes,
};
use crate::search_laws::lemma_solutions_complete;
use crate::sudoku::{Sudoku, SudokuMaxNumber};
use bit_set::BitSet;
use std::sync::Arc;
use vstd::prelude::*;

verus! {

/// A node of the search tree: the grid to solve, or a node with one more
/// cell filled.
#[derive(Debug)]
pub enum Solve {
    Sudoku(Sudoku),
    Next { prev: Arc<Solve>, step: Step },
}

/// One decision of the search: a value written to an empty cell, with
/// the values that each row, column and block holds once it is written.
#[derive(Debug)]
pub struct Step {
    v: usize,
    x: usize,
    y: usize,
    horizontals: Vec<BitSet>,
    verticals: Vec<BitSet>,
    squares: Vec<BitSet>,
}

/// The three families of sets hold, for each row, column and block of
/// the grid, the values present in it.
spec fn tracks(
    board: Board,
    rows: Seq<BitSet>,
    columns: Seq<BitSet>,
    blocks: Seq<BitSet>,
) -> bool {
    &&& rows.len() == board.side()
    &&& columns.len() == board.side()
    &&& blocks.len() == board.side()
    &&& forall|i: int| 0 <= i < board.side() ==> members(#[trigger] rows[i]) == board.row_used(i)
    &&& forall|i: int|
        0 <= i < board.side() ==> members(#[trigger] columns[i]) == board.col_used(i)
    &&& forall|i: int|
        0 <= i < board.side() ==> members(#[trigger] blocks[i]) == board.block_used(i)
}

/// What the scan for the most constrained cell knows when it is about to
/// read `(cx, cy)`: either that no empty cell precedes it, or which of
/// them is the first with the fewest candidates, and these candidates.
spec fn scanned(
    board: Board,
    minimum: Option<(usize, usize, BitSet)>,
    cx: int,
    cy: int,
) -> bool {
    match minimum {
        None => forall|x: int, y: int| #[trigger] board.is_empty_at(x, y) ==> !precedes(x, y, cx, cy),
        Some((xm, ym, set)) => board.is_least_before(xm as int, ym as int, cx, cy) && members(set)
            == board.candidates(xm as int, ym as int),
    }
}

impl Step {
    /// The grid that the step makes of its parent's grid.
    pub closed spec fn apply(&self, parent: Board) -> Board {
        parent.place(self.x as int, self.y as int, self.v)
    }

    /// The step fills an empty cell of its parent's grid with a value of
    /// the order, and its sets hold what the rows, columns and blocks
    /// then hold.
    pub closed spec fn fits(&self, parent: Board) -> bool {
        &&& parent.is_empty_at(self.x as int, self.y as int)
        &&& 1 <= self.v <= parent.side()
        &&& tracks(self.apply(parent), self.horizontals@, self.verticals@, self.squares@)
    }
}

impl View for Solve {
    type V = Board;

    open spec fn view(&self) -> Board {
        self.board()
    }
}

impl Solve {
    /// The grid at this node: the grid to solve with every decision on
    /// the way to the node written into it.
    pub open spec fn board(&self) -> Board
        decreases self,
    {
        match self {
            Solve::Sudoku(sudoku) => sudoku@,
            Solve::Next { prev, step } => step.apply(prev.board()),
        }
    }

    /// The grid to solve is well-formed and every decision fits the grid
    /// that it was made on.
    pub open spec fn wf(&self) -> bool
        decreases self,
    {
        match self {
            Solve::Sudoku(sudoku) => sudoku.wf(),
            Solve::Next { prev, step } => prev.wf() && step.fits(prev.board()),
        }
    }

    /// The node that this node was reached from, if it is a step.
    pub open spec fn parent(&self) -> Option<Solve> {
        match self {
            Solve::Sudoku(_) => None,
            Solve::Next { prev, step } => Some(**prev),
        }
    }

    /// The node is `root`, or was reached from it in one or more steps.
    pub open spec fn descends_from(&self, root: Solve) -> bool
        decreases self,
    {
        *self == root || match self {
            Solve::Sudoku(_) => false,
            Solve::Next { prev, step } => prev.descends_from(root),
        }
    }

    /// The grids of a sequence of nodes.
    pub open spec fn boards(nodes: Seq<Arc<Solve>>) -> Seq<Board> {
        nodes.map_values(|node: Arc<Solve>| node@)
    }

    /// The grid of a well-formed node is well-formed.
    pub proof fn lemma_wf_board(&self)
        requires
            self.wf(),
        ensures
            self@.wf(),
        decreases self,
    {
        match self {
            Solve::Sudoku(sudoku) => {},
            Solve::Next { prev, step } => {
                prev.lemma_wf_board();
                lemma_place_wf(prev.board(), step.x as int, step.y as int, step.v);
            },
        }
    }

    /// A node reached from a node that was reached from `root` in one
    /// step was reached from `root`.
    pub proof fn lemma_descends_further(&self, child: Solve, root: Solve)
        requires
            self.descends_from(child),
            child.parent() == Some(root),
        ensures
            self.descends_from(root),
        decreases self,
    {
        match self {
            Solve::Sudoku(_) => {},
            Solve::Next { prev, step } => {
                if *self == child {
                    assert(**prev == root);
                    assert(prev.descends_from(root));
                } else {
                    prev.lemma_descends_further(child, root);
                }
            },
        }
    }

    /// Take ownership so the sudoku will stay the same during solving.
    pub fn new(sudoku: Sudoku) -> (root: Arc<Self>)
        requires
            sudoku.wf(),
        ensures
            root.wf(),
            root@ == sudoku@,
            *root == Solve::Sudoku(sudoku),
    {
        Arc::new(Solve::Sudoku(sudoku))
    }

    /// The grid at a node, as a grid of its own.
    pub fn to_sudoku(solve: &Arc<Self>) -> (sudoku: Sudoku)
        requires
            solve.wf(),
        ensures
            sudoku.wf(),
            sudoku@ == solve@,
    {
        let smn = Self::smn(solve);
        let mut sudoku = Sudoku::new(smn);
        let side_length: usize = smn.side_length();
        proof {
            solve.lemma_wf_board();
        }
        for y in 0..side_length
            invariant
                solve.wf(),
                sudoku.wf(),
                sudoku@.order == solve@.order,
                side_length == solve@.side(),
                forall|x2: int, y2: int|
                    solve@.in_range(x2, y2) && precedes(x2, y2, 0, y as int)
                        ==> #[trigger] sudoku@.cell(x2, y2) == solve@.cell(x2, y2),
        {
            for x in 0..side_length
                invariant
                    solve.wf(),
                    sudoku.wf(),
                    sudoku@.order == solve@.order,
                    side_length == solve@.side(),
                    y < side_length,
                    forall|x2: int, y2: int|
                        solve@.in_range(x2, y2) && precedes(x2, y2, x as int, y as int)
                            ==> #[trigger] sudoku@.cell(x2, y2) == solve@.cell(x2, y2),
            {
                let value: usize = Self::get(solve, x, y);
                proof {
                    lemma_place_cells(sudoku@, x as int, y as int, value);
                }
                sudoku.set(x, y, value);
            }
        }
        proof {
            lemma_same_cells(sudoku@, solve@);
        }
        sudoku
    }

    /// Every complete grid that the search reaches from the node, in the
    /// order in which it reaches them.
    pub fn solve(solve: Arc<Self>) -> (found: Vec<Arc<Self>>)
        requires
            solve.wf(),
        ensures
            Solve::boards(found@) == solve@.solutions(),
            forall|i: int|
                0 <= i < found@.len() ==> (#[trigger] found@[i]).wf() && found@[i].descends_from(
                    *solve,
                ) && found@[i]@.is_complete() && found@[i]@.extends(solve@),
    {
        let smn = Self::smn(&solve);
        let ghost board = solve@;
        let found = Self::solve_rec(solve, smn.side_parts(), smn.side_length());
        proof {
            solve.lemma_wf_board();
            assert forall|i: int| 0 <= i < found@.len() implies (#[trigger] found@[i])@.is_complete()
                && found@[i]@.extends(board) by {
                assert(Solve::boards(found@)[i] == found@[i]@);
                lemma_solutions_complete(board, found@[i]@);
            }
        }
        found
    }

    fn solve_rec(solve: Arc<Self>, side_parts: usize, side_length: usize) -> (found: Vec<
        Arc<Self>,
    >)
        requires
            solve.wf(),
            side_parts == solve@.block_side(),
            side_length == solve@.side(),
        ensures
            Solve::boards(found@) == solve@.solutions(),
            forall|i: int|
                0 <= i < found@.len() ==> (#[trigger] found@[i]).wf() && found@[i].descends_from(
                    *solve,
                ),
        decreases solve@.blanks(),
    {
        let ghost board = solve@;
        proof {
            solve.lemma_wf_board();
        }
        if Self::done(&solve, side_length) {
            let found = vec![solve];
            assert(Solve::boards(found@) =~= seq![board]);
            found
        } else {
            let nexts = Self::generate_next(share(&solve), side_parts, side_length);
            let mut found: Vec<Arc<Self>> = Vec::new();
            assert(Solve::boards(found@) =~= board.solutions_of_first(0));
            for k in 0..nexts.len()
                invariant
                    board == solve@,
                    board.wf(),
                    !board.is_complete(),
                    side_parts == board.block_side(),
                    side_length == board.side(),
                    nexts@.len() == board.children().len(),
                    forall|j: int|
                        0 <= j < nexts@.len() ==> (#[trigger] nexts@[j]).wf() && nexts@[j]@
                            == board.children()[j] && nexts@[j].parent() == Some(*solve),
                    Solve::boards(found@) == board.solutions_of_first(k as nat),
                    forall|i: int|
                        0 <= i < found@.len() ==> (#[trigger] found@[i]).wf()
                            && found@[i].descends_from(*solve),
            {
                proof {
                    lemma_child(board, k as int);
                }
                let ghost before = found@;
                let mut part = Self::solve_rec(share(&nexts[k]), side_parts, side_length);
                let ghost added = part@;
                proof {
                    assert forall|i: int| 0 <= i < added.len() implies (#[trigger] added[i])
                        .descends_from(*solve) by {
                        added[i].lemma_descends_further(*nexts@[k as int], *solve);
                    }
                }
                found.append(&mut part);
                assert(Solve::boards(found@) =~= Solve::boards(before) + Solve::boards(added));
            }
            found
        }
    }

    /// Return the current value on the location, traversing all taken
    /// steps.
    fn get(solve: &Arc<Self>, x: usize, y: usize) -> (value: usize)
        requires
            solve.wf(),
            solve@.in_range(x as int, y as int),
        ensures
            value == solve@.cell(x as int, y as int),
            value <= solve@.side(),
        decreases **solve,
    {
        proof {
            solve.lemma_wf_board();
            lemma_cells_bounded(solve@);
        }
        match **solve {
            Solve::Sudoku(ref sudoku) => sudoku.get(x, y),
            Solve::Next { ref prev, ref step } => {
                proof {
                    prev.lemma_wf_board();
                    lemma_place_cell(
                        prev.board(),
                        step.x as int,
                        step.y as int,
                        step.v,
                        x as int,
                        y as int,
                    );
                }
                if x == step.x && y == step.y {
                    step.v
                } else {
                    Self::get(prev, x, y)
                }
            },
        }
    }

    fn smn(solve: &Arc<Self>) -> (order: SudokuMaxNumber)
        ensures
            order == solve@.order,
        decreases **solve,
    {
        match **solve {
            Solve::Sudoku(ref sudoku) => sudoku.order(),
            Solve::Next { ref prev, .. } => Solve::smn(prev),
        }
    }

    /// The nodes that one step of the search leads to.
    fn generate_next(solve: Arc<Self>, side_parts: usize, side_length: usize) -> (nexts: Vec<
        Arc<Self>,
    >)
        requires
            solve.wf(),
            side_parts == solve@.block_side(),
            side_length == solve@.side(),
        ensures
            nexts@.len() == solve@.children().len(),
            forall|k: int|
                0 <= k < nexts@.len() ==> (#[trigger] nexts@[k]).wf() && nexts@[k]@
                    == solve@.children()[k] && nexts@[k].parent() == Some(*solve),
    {
        let (horizontals, verticals, squares) = match *solve {
            Solve::Sudoku(ref sudoku) => (
                sudoku.horizontals(),
                sudoku.verticals(),
                sudoku.squares(),
            ),
            Solve::Next { prev: _, ref step } => (
                Self::clone_sets(&step.horizontals),
                Self::clone_sets(&step.verticals),
                Self::clone_sets(&step.squares),
            ),
        };
        Self::least_options(solve, side_parts, side_length, horizontals, verticals, squares)
    }

    /// A copy of each set.
    fn clone_sets(sets: &Vec<BitSet>) -> (copies: Vec<BitSet>)
        ensures
            copies@.len() == sets@.len(),
            forall|i: int|
                0 <= i < sets@.len() ==> members(#[trigger] copies@[i]) == members(sets@[i]),
    {
        let mut copies: Vec<BitSet> = Vec::with_capacity(sets.len());
        for i in 0..sets.len()
            invariant
                copies@.len() == i,
                forall|j: int| 0 <= j < i ==> members(#[trigger] copies@[j]) == members(sets@[j]),
        {
            copies.push(copy(&sets[i]));
        }
        copies
    }

    /// The values that may still go to the cell `(x, y)`.
    fn remaining(
        solve: &Arc<Self>,
        side_parts: usize,
        side_length: usize,
        x: usize,
        y: usize,
        horizontals: &Vec<BitSet>,
        verticals: &Vec<BitSet>,
        squares: &Vec<BitSet>,
    ) -> (local_set: BitSet)
        requires
            solve.wf(),
            side_parts == solve@.block_side(),
            side_length == solve@.side(),
            solve@.in_range(x as int, y as int),
            tracks(solve@, horizontals@, verticals@, squares@),
        ensures
            members(local_set) == solve@.candidates(x as int, y as int),
    {
        proof {
            solve.lemma_wf_board();
            solve@.order.sizes();
            lemma_block_of(solve@, x as int, y as int, 0, 0);
            lemma_used_bounded(solve@, x as int, y as int);
        }
        let horizontal_set = &horizontals[y];
        let vertical_set = &verticals[x];
        let square_set = &squares[Solve::square_index(side_parts, x, y)];
        let mut local_set = copy(horizontal_set);
        union_with(&mut local_set, vertical_set);
        union_with(&mut local_set, square_set);
        let mut all_set = positions(filled(side_length + 1, true));
        remove(&mut all_set, 0);
        symmetric_difference_with(&mut local_set, &all_set);
        assert(members(local_set) =~= solve@.candidates(x as int, y as int));
        local_set
    }

    /// The node with `val` written to the empty cell `(x, y)`.
    fn descend(
        solve: &Arc<Self>,
        side_parts: usize,
        x: usize,
        y: usize,
        val: usize,
        horizontals: &Vec<BitSet>,
        verticals: &Vec<BitSet>,
        squares: &Vec<BitSet>,
    ) -> (next: Arc<Self>)
        requires
            solve.wf(),
            side_parts == solve@.block_side(),
            solve@.is_empty_at(x as int, y as int),
            1 <= val <= solve@.side(),
            tracks(solve@, horizontals@, verticals@, squares@),
        ensures
            next.wf(),
            next@ == solve@.place(x as int, y as int, val),
            next.parent() == Some(**solve),
    {
        proof {
            solve.lemma_wf_board();
            solve@.order.sizes();
            lemma_block_of(solve@, x as int, y as int, 0, 0);
            lemma_place_used(solve@, x as int, y as int, val);
        }
        let mut hs = Self::clone_sets(horizontals);
        insert(&mut hs[y], val);
        let mut vs = Self::clone_sets(verticals);
        insert(&mut vs[x], val);
        let mut sqs = Self::clone_sets(squares);
        insert(&mut sqs[Solve::square_index(side_parts, x, y)], val);
        let step = Step { v: val, x: x, y: y, horizontals: hs, verticals: vs, squares: sqs };
        assert(step.fits(solve@));
        Arc::new(Solve::Next { prev: share(solve), step: step })
    }

    /// The nodes that one step of the search leads to, given the values
    /// present in each row, column and block of the node's grid.
    fn least_options(
        solve: Arc<Self>,
        side_parts: usize,
        side_length: usize,
        horizontals: Vec<BitSet>,
        verticals: Vec<BitSet>,
        squares: Vec<BitSet>,
    ) -> (nexts: Vec<Arc<Self>>)
        requires
            solve.wf(),
            side_parts == solve@.block_side(),
            side_length == solve@.side(),
            tracks(solve@, horizontals@, verticals@, squares@),
        ensures
            nexts@.len() == solve@.children().len(),
            forall|k: int|
                0 <= k < nexts@.len() ==> (#[trigger] nexts@[k]).wf() && nexts@[k]@
                    == solve@.children()[k] && nexts@[k].parent() == Some(*solve),
    {
        let mut minimum: Option<(usize, usize, BitSet)> = None;
        for y in 0..side_length
            invariant
                solve.wf(),
                side_parts == solve@.block_side(),
                side_length == solve@.side(),
                tracks(solve@, horizontals@, verticals@, squares@),
                scanned(solve@, minimum, 0, y as int),
        {
            for x in 0..side_length
                invariant
                    solve.wf(),
                    side_parts == solve@.block_side(),
                    side_length == solve@.side(),
                    y < side_length,
                    tracks(solve@, horizontals@, verticals@, squares@),
                    scanned(solve@, minimum, x as int, y as int),
            {
                if Self::get(&solve, x, y) == 0 {
                    let local_set = Self::remaining(
                        &solve,
                        side_parts,
                        side_length,
                        x,
                        y,
                        &horizontals,
                        &verticals,
                        &squares,
                    );
                    minimum =
                    match minimum {
                        None => Some((x, y, local_set)),
                        Some((xm, ym, bitset)) => {
                            if count(&bitset) > count(&local_set) {
                                Some((x, y, local_set))
                            } else {
                                Some((xm, ym, bitset))
                            }
                        },
                    };
                }
            }
        }
        // Minimal set of optional paths found
        match minimum {
            None => {
                // No options returned
                assert forall|x: int, y: int| solve@.in_range(x, y) implies #[trigger] solve@.cell(
                    x,
                    y,
                ) != 0 by {
                    if solve@.cell(x, y) == 0 {
                        assert(solve@.is_empty_at(x, y));
                    }
                }
                Vec::new()
            },
            Some((x, y, bitset)) => {
                let values = ascending(&bitset);
                let mut nexts: Vec<Arc<Self>> = Vec::with_capacity(count(&bitset));
                proof {
                    solve.lemma_wf_board();
                    assert(solve@.cell(x as int, y as int) == 0);
                    lemma_most_constrained(solve@);
                    lemma_most_constrained_unique(
                        solve@,
                        x as int,
                        y as int,
                        solve@.most_constrained().0,
                        solve@.most_constrained().1,
                    );
                    lemma_choices_are(solve@, x as int, y as int, values@);
                }
                for k in 0..values.len()
                    invariant
                        solve.wf(),
                        side_parts == solve@.block_side(),
                        tracks(solve@, horizontals@, verticals@, squares@),
                        !solve@.is_complete(),
                        solve@.most_constrained() == (x as int, y as int),
                        solve@.is_empty_at(x as int, y as int),
                        values@ == solve@.choices(x as int, y as int),
                        values@.len() == solve@.children().len(),
                        nexts@.len() == k,
                        forall|j: int|
                            0 <= j < k ==> (#[trigger] nexts@[j]).wf() && nexts@[j]@
                                == solve@.children()[j] && nexts@[j].parent() == Some(*solve),
                {
                    proof {
                        solve.lemma_wf_board();
                        lemma_child(solve@, k as int);
                    }
                    let next = Self::descend(
                        &solve,
                        side_parts,
                        x,
                        y,
                        values[k],
                        &horizontals,
                        &verticals,
                        &squares,
                    );
                    nexts.push(next);
                }
                nexts
            },  // Optional paths returned
        }
    }

    /// The number of the block that the cell `(x, y)` lies in.
    fn square_index(side_parts: usize, x: usize, y: usize) -> (index: usize)
        requires
            side_parts == 2 || side_parts == 3 || side_parts == 4,
            x < side_parts * side_parts,
            y < side_parts * side_parts,
        ensures
            index == (y / side_parts) * side_parts + x / side_parts,
            index < side_parts * side_parts,
    {
        proof {
            lemma_split(side_parts as int, x as int);
            lemma_split(side_parts as int, y as int);
            lemma_join(side_parts as int, y as int / side_parts as int, x as int / side_parts as int);
        }
        let xp: usize = x / side_parts;
        let yp: usize = y / side_parts;
        yp * side_parts + xp
    }

    /// Whether no cell of the node's grid is empty.
    fn done(solve: &Arc<Self>, side_length: usize) -> (complete: bool)
        requires
            solve.wf(),
            side_length == solve@.side(),
        ensures
            complete == solve@.is_complete(),
    {
        for y in 0..side_length
            invariant
                solve.wf(),
                side_length == solve@.side(),
                forall|x2: int, y2: int|
                    solve@.in_range(x2, y2) && precedes(x2, y2, 0, y as int)
                        ==> #[trigger] solve@.cell(x2, y2) != 0,
        {
            for x in 0..side_length
                invariant
                    solve.wf(),
                    side_length == solve@.side(),
                    y < side_length,
                    forall|x2: int, y2: int|
                        solve@.in_range(x2, y2) && precedes(x2, y2, x as int, y as int)
                            ==> #[trigger] solve@.cell(x2, y2) != 0,
            {
                if Self::get(solve, x, y) == 0 {
                    return false;
                }
            }
        }
        // There are no empty squares so solving is done
        true
    }
}

/// `Arc::clone`: one more handle on the same value.
#[verifier::external_body]
fn share<T>(handle: &Arc<T>) -> (other: Arc<T>)
    ensures
        other == *handle,
{
    Arc::clone(handle)
}

} // verus!
