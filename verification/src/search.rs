//! Which grids the search reaches from a grid, and in which order.

use crate::board::{lemma_place_cells, lemma_place_wf, lemma_used_bounded, Board};
use crate::sudoku::SudokuMaxNumber;
use vstd::prelude::*;

verus! {

/// Number of zeros in a sequence.
pub open spec fn zeros(s: Seq<usize>) -> nat
    decreases s.len(),
{
    if s.len() == 0 {
        0
    } else {
        zeros(s.drop_last()) + if s.last() == 0 {
            1nat
        } else {
            0nat
        }
    }
}

/// Cell `(x1, y1)` is read before cell `(x2, y2)` when a grid is read
/// row after row, each row from its first column.
pub open spec fn precedes(x1: int, y1: int, x2: int, y2: int) -> bool {
    y1 < y2 || (y1 == y2 && x1 < x2)
}

/// Each item is smaller than the next.
pub open spec fn increasing(s: Seq<usize>) -> bool {
    forall|i: int, j: int| 0 <= i < j < s.len() ==> s[i] < s[j]
}

impl Board {
    /// Number of empty cells.
    pub open spec fn blanks(self) -> nat {
        zeros(self.cells)
    }

    /// Number of values that may still go to `(x, y)`.
    pub open spec fn options(self, x: int, y: int) -> nat {
        self.candidates(x, y).len()
    }

    /// Among the empty cells read before `(cx, cy)`, the cell `(x, y)`
    /// has the fewest candidates, and is the first to have so few.
    pub open spec fn is_least_before(self, x: int, y: int, cx: int, cy: int) -> bool {
        &&& self.is_empty_at(x, y)
        &&& precedes(x, y, cx, cy)
        &&& forall|x2: int, y2: int|
            #[trigger] self.is_empty_at(x2, y2) && precedes(x2, y2, cx, cy) ==> self.options(x, y)
                <= self.options(x2, y2) && (precedes(x2, y2, x, y) ==> self.options(x, y)
                < self.options(x2, y2))
    }

    /// Among all empty cells, `(x, y)` has the fewest candidates, and is
    /// the first to have so few when the grid is read row after row.
    pub open spec fn is_most_constrained(self, x: int, y: int) -> bool {
        self.is_least_before(x, y, 0, self.side())
    }

    /// The empty cell that the search fills next.
    pub open spec fn most_constrained(self) -> (int, int) {
        choose|at: (int, int)| self.is_most_constrained(at.0, at.1)
    }

    /// The candidates of `(x, y)` that are at most `hi`, the smallest
    /// first.
    pub open spec fn choices_upto(self, x: int, y: int, hi: nat) -> Seq<usize>
        decreases hi,
    {
        if hi == 0 {
            Seq::empty()
        } else {
            let rest = self.choices_upto(x, y, (hi - 1) as nat);
            if self.candidates(x, y).contains(hi as usize) {
                rest.push(hi as usize)
            } else {
                rest
            }
        }
    }

    /// The candidates of `(x, y)`, the smallest first.
    pub open spec fn choices(self, x: int, y: int) -> Seq<usize> {
        self.choices_upto(x, y, self.side() as nat)
    }

    /// The grids that one step of the search leads to: the most
    /// constrained empty cell filled with each of its candidates in turn,
    /// the smallest first. A complete grid leads nowhere.
    pub open spec fn children(self) -> Seq<Board> {
        if self.is_complete() {
            Seq::empty()
        } else {
            let at = self.most_constrained();
            let values = self.choices(at.0, at.1);
            Seq::new(values.len(), |k: int| self.place(at.0, at.1, values[k]))
        }
    }

    /// The complete grids that the search reaches from this grid, in the
    /// order in which it reaches them: the grid itself if it is complete,
    /// else what it reaches from the first child, then from the second,
    /// and so on.
    pub open spec fn solutions(self) -> Seq<Board>
        decreases self.blanks(), 1nat, 0nat,
    {
        if !self.wf() {
            Seq::empty()
        } else if self.is_complete() {
            seq![self]
        } else {
            self.solutions_of_first(self.children().len())
        }
    }

    /// The complete grids that the search reaches from the first `k`
    /// children of this grid.
    pub open spec fn solutions_of_first(self, k: nat) -> Seq<Board>
        decreases self.blanks(), 0nat, k,
        via Self::solutions_of_first_decreases
    {
        if k == 0 || !self.wf() || k > self.children().len() {
            Seq::empty()
        } else {
            self.solutions_of_first((k - 1) as nat) + self.children()[k - 1].solutions()
        }
    }

    #[via_fn]
    proof fn solutions_of_first_decreases(self, k: nat) {
        if !(k == 0 || !self.wf() || k > self.children().len()) {
            lemma_child(self, k - 1);
        }
    }
}

/// Filling an empty cell leaves one empty cell fewer.
pub proof fn lemma_zeros_update(s: Seq<usize>, i: int, v: usize)
    requires
        0 <= i < s.len(),
        s[i] == 0,
        v != 0,
    ensures
        zeros(s.update(i, v)) + 1 == zeros(s),
    decreases s.len(),
{
    let t = s.update(i, v);
    if i == s.len() - 1 {
        assert(t.drop_last() =~= s.drop_last());
    } else {
        assert(t.drop_last() =~= s.drop_last().update(i, v));
        lemma_zeros_update(s.drop_last(), i, v);
    }
}

/// If some empty cell is read before `(cx, cy)`, one of them is the
/// first with the fewest candidates.
pub proof fn lemma_least_exists(b: Board, cx: int, cy: int)
    requires
        0 <= cx <= b.side(),
        0 <= cy,
    ensures
        (exists|x: int, y: int| #[trigger] b.is_empty_at(x, y) && precedes(x, y, cx, cy))
            ==> exists|x: int, y: int| #[trigger] b.is_least_before(x, y, cx, cy),
    decreases cy, cx,
{
    if exists|x: int, y: int| #[trigger] b.is_empty_at(x, y) && precedes(x, y, cx, cy) {
        if cx > 0 {
            lemma_least_exists(b, cx - 1, cy);
            if exists|x: int, y: int|
                #[trigger] b.is_empty_at(x, y) && precedes(x, y, cx - 1, cy) {
                let (xm, ym) = choose|x: int, y: int|
                    #[trigger] b.is_least_before(x, y, cx - 1, cy);
                if b.is_empty_at(cx - 1, cy) && b.options(xm, ym) > b.options(cx - 1, cy) {
                    assert(b.is_least_before(cx - 1, cy, cx, cy));
                } else {
                    assert(b.is_least_before(xm, ym, cx, cy));
                }
            } else {
                assert(b.is_empty_at(cx - 1, cy));
                assert(b.is_least_before(cx - 1, cy, cx, cy));
            }
        } else if cy > 0 {
            lemma_least_exists(b, b.side(), cy - 1);
            let (x0, y0) = choose|x: int, y: int|
                #[trigger] b.is_empty_at(x, y) && precedes(x, y, cx, cy);
            assert(b.is_empty_at(x0, y0) && precedes(x0, y0, b.side(), cy - 1));
            let (xm, ym) = choose|x: int, y: int|
                #[trigger] b.is_least_before(x, y, b.side(), cy - 1);
            assert(b.is_least_before(xm, ym, cx, cy));
        } else {
            let (x0, y0) = choose|x: int, y: int|
                #[trigger] b.is_empty_at(x, y) && precedes(x, y, cx, cy);
            assert(false);
        }
    }
}

/// A grid with an empty cell has a most constrained cell, which is the
/// one that `most_constrained` names.
pub proof fn lemma_most_constrained(b: Board)
    requires
        !b.is_complete(),
    ensures
        b.is_most_constrained(b.most_constrained().0, b.most_constrained().1),
{
    let (x0, y0) = choose|x: int, y: int| b.in_range(x, y) && !(#[trigger] b.cell(x, y) != 0);
    assert(b.is_empty_at(x0, y0) && precedes(x0, y0, 0, b.side()));
    lemma_least_exists(b, 0, b.side());
    let (xm, ym) = choose|x: int, y: int| #[trigger] b.is_least_before(x, y, 0, b.side());
    assert(b.is_most_constrained((xm, ym).0, (xm, ym).1));
}

/// A grid has at most one most constrained cell.
pub proof fn lemma_most_constrained_unique(b: Board, x1: int, y1: int, x2: int, y2: int)
    requires
        b.is_most_constrained(x1, y1),
        b.is_most_constrained(x2, y2),
    ensures
        x1 == x2,
        y1 == y2,
{
    assert(b.is_empty_at(x1, y1));
    assert(b.is_empty_at(x2, y2));
}

/// The candidates up to `hi`, smallest first, are just that.
pub proof fn lemma_choices_upto(b: Board, x: int, y: int, hi: nat)
    requires
        hi <= b.side(),
    ensures
        increasing(b.choices_upto(x, y, hi)),
        forall|i: int|
            0 <= i < b.choices_upto(x, y, hi).len() ==> 1 <= #[trigger] b.choices_upto(x, y, hi)[i]
                <= hi && b.candidates(x, y).contains(b.choices_upto(x, y, hi)[i]),
        forall|v: usize|
            1 <= v <= hi && b.candidates(x, y).contains(v) ==> b.choices_upto(x, y, hi).contains(
                v,
            ),
    decreases hi,
{
    if hi > 0 {
        let rest = b.choices_upto(x, y, (hi - 1) as nat);
        let all = b.choices_upto(x, y, hi);
        lemma_choices_upto(b, x, y, (hi - 1) as nat);
        assert forall|v: usize| 1 <= v <= hi && b.candidates(x, y).contains(v) implies all.contains(
            v,
        ) by {
            if v == hi {
                assert(all[all.len() - 1] == v);
            } else {
                let i = choose|i: int| 0 <= i < rest.len() && rest[i] == v;
                assert(all[i] == v);
            }
        }
    }
}

/// Two increasing sequences with the same items are the same sequence.
pub proof fn lemma_increasing_unique(s: Seq<usize>, t: Seq<usize>)
    requires
        increasing(s),
        increasing(t),
        forall|v: usize| s.contains(v) <==> t.contains(v),
    ensures
        s == t,
    decreases s.len(),
{
    if s.len() == 0 {
        if t.len() > 0 {
            assert(t.contains(t[0]));
            assert(s.contains(t[0]));
        }
        assert(s =~= t);
    } else {
        let m = s.last();
        assert(s.contains(m));
        assert(t.contains(m));
        let j = choose|j: int| 0 <= j < t.len() && t[j] == m;
        let n = t.last();
        assert(t.contains(n));
        assert(s.contains(n));
        let i = choose|i: int| 0 <= i < s.len() && s[i] == n;
        assert(n == m);
        assert(j == t.len() - 1);
        let s0 = s.drop_last();
        let t0 = t.drop_last();
        assert forall|v: usize| s0.contains(v) <==> t0.contains(v) by {
            if s0.contains(v) {
                let a = choose|a: int| 0 <= a < s0.len() && s0[a] == v;
                assert(s[a] == v);
                assert(s.contains(v));
                let c = choose|c: int| 0 <= c < t.len() && t[c] == v;
                assert(c < t.len() - 1);
                assert(t0[c] == v);
            }
            if t0.contains(v) {
                let a = choose|a: int| 0 <= a < t0.len() && t0[a] == v;
                assert(t[a] == v);
                assert(t.contains(v));
                let c = choose|c: int| 0 <= c < s.len() && s[c] == v;
                assert(c < s.len() - 1);
                assert(s0[c] == v);
            }
        }
        lemma_increasing_unique(s0, t0);
        assert(s =~= s0.push(m));
        assert(t =~= t0.push(n));
    }
}

/// An increasing sequence that holds just the candidates of a cell is
/// the cell's sequence of choices.
pub proof fn lemma_choices_are(b: Board, x: int, y: int, values: Seq<usize>)
    requires
        b.wf(),
        b.in_range(x, y),
        increasing(values),
        forall|v: usize| values.contains(v) <==> b.candidates(x, y).contains(v),
    ensures
        values == b.choices(x, y),
{
    let c = b.choices(x, y);
    lemma_choices_upto(b, x, y, b.side() as nat);
    lemma_used_bounded(b, x, y);
    assert forall|v: usize| values.contains(v) <==> c.contains(v) by {
        if c.contains(v) {
            let i = choose|i: int| 0 <= i < c.len() && c[i] == v;
            assert(b.candidates(x, y).contains(c[i]));
        }
    }
    lemma_increasing_unique(values, c);
}

/// What holds of the `k`-th child of a grid with an empty cell: it is
/// the grid with its most constrained cell, empty so far, filled with
/// the `k`-th of that cell's candidates; it is well-formed, has one
/// empty cell fewer, and keeps what the grid had.
pub proof fn lemma_child(b: Board, k: int)
    requires
        b.wf(),
        0 <= k < b.children().len(),
    ensures
        !b.is_complete(),
        b.is_most_constrained(b.most_constrained().0, b.most_constrained().1),
        b.children().len() == b.choices(b.most_constrained().0, b.most_constrained().1).len(),
        b.children()[k] == b.place(
            b.most_constrained().0,
            b.most_constrained().1,
            b.choices(b.most_constrained().0, b.most_constrained().1)[k],
        ),
        b.candidates(b.most_constrained().0, b.most_constrained().1).contains(
            b.choices(b.most_constrained().0, b.most_constrained().1)[k],
        ),
        1 <= b.choices(b.most_constrained().0, b.most_constrained().1)[k] <= b.side(),
        b.children()[k].wf(),
        b.children()[k].order == b.order,
        b.children()[k].blanks() + 1 == b.blanks(),
        b.children()[k].extends(b),
{
    let at = b.most_constrained();
    let values = b.choices(at.0, at.1);
    let v = values[k];
    let child = b.place(at.0, at.1, v);
    lemma_most_constrained(b);
    lemma_choices_upto(b, at.0, at.1, b.side() as nat);
    lemma_place_wf(b, at.0, at.1, v);
    lemma_place_cells(b, at.0, at.1, v);
    crate::board::lemma_index_in_range(b.order, at.0, at.1);
    lemma_zeros_update(b.cells, b.order.index(at.0, at.1), v);
    assert(child.extends(b));
}

} // verus!
