//! What holds of the grids that the search returns.

use crate::board::{lemma_cells_bounded, lemma_place_cells, lemma_same_cells, Board};
use crate::search::{lemma_child, lemma_choices_upto, lemma_most_constrained};
use crate::solve::Solve;
use std::sync::Arc;
use vstd::prelude::*;
use vstd::relations::injective_on;
use vstd::seq_lib::lemma_no_dup_in_concat;
use vstd::set_lib::{lemma_int_range, lemma_len_subset, lemma_map_size, set_int_range};

verus! {

/// The grid `found` is among those that the search reaches from the
/// `j`-th child of `base`.
pub open spec fn found_under(base: Board, j: int, found: Board) -> bool {
    0 <= j < base.children().len() && base.children()[j].solutions().contains(found)
}

/// What the search reaches from the first `k` children of a grid is
/// what it reaches from one of them.
pub proof fn lemma_of_first_members(b: Board, k: nat, s: Board)
    requires
        b.wf(),
        k <= b.children().len(),
    ensures
        b.solutions_of_first(k).contains(s) <==> exists|j: int|
            j < k && #[trigger] found_under(b, j, s),
    decreases k,
{
    if k > 0 {
        lemma_of_first_members(b, (k - 1) as nat, s);
        let head = b.solutions_of_first((k - 1) as nat);
        let tail = b.children()[k - 1].solutions();
        let all = b.solutions_of_first(k);
        assert(all == head + tail);
        if all.contains(s) {
            let i = choose|i: int| 0 <= i < all.len() && all[i] == s;
            if i < head.len() {
                assert(head[i] == s);
                assert(head.contains(s));
                let j = choose|j: int| j < k - 1 && #[trigger] found_under(b, j, s);
                assert(j < k && found_under(b, j, s));
            } else {
                assert(tail[i - head.len()] == s);
                assert(found_under(b, k - 1, s));
            }
        }
        if exists|j: int| j < k && #[trigger] found_under(b, j, s) {
            let j = choose|j: int| j < k && #[trigger] found_under(b, j, s);
            if j < k - 1 {
                assert(found_under(b, j, s));
                assert(head.contains(s));
                let i = choose|i: int| 0 <= i < head.len() && head[i] == s;
                assert(all[i] == s);
            } else {
                let i = choose|i: int| 0 <= i < tail.len() && tail[i] == s;
                assert(all[head.len() + i] == s);
            }
        }
    }
}

/// Every grid that the search returns is well-formed and complete, and
/// keeps every value that the grid it started from had.
pub proof fn lemma_solutions_complete(b: Board, s: Board)
    requires
        b.wf(),
        b.solutions().contains(s),
    ensures
        s.wf(),
        s.is_complete(),
        s.extends(b),
    decreases b.blanks(),
{
    if b.is_complete() {
        assert(b.solutions()[0] == b);
    } else {
        lemma_of_first_members(b, b.children().len(), s);
        let j = choose|j: int| j < b.children().len() && #[trigger] found_under(b, j, s);
        lemma_child(b, j);
        let child = b.children()[j];
        lemma_solutions_complete(child, s);
        lemma_extends_twice(s, child, b);
    }
}

/// A grid that keeps what a second grid has, which keeps what a third
/// has, keeps what the third has.
pub proof fn lemma_extends_twice(a: Board, b: Board, c: Board)
    requires
        a.extends(b),
        b.extends(c),
    ensures
        a.extends(c),
{
    assert forall|x: int, y: int| c.in_range(x, y) && #[trigger] c.cell(x, y) != 0 implies a.cell(
        x,
        y,
    ) == c.cell(x, y) by {
        assert(b.cell(x, y) == c.cell(x, y));
        assert(b.in_range(x, y));
    }
}

/// Filling the most constrained cell of a grid without a duplicate with
/// one of its candidates gives a grid without a duplicate.
pub proof fn lemma_child_consistent(b: Board, k: int)
    requires
        b.wf(),
        b.consistent(),
        0 <= k < b.children().len(),
    ensures
        b.children()[k].consistent(),
{
    lemma_child(b, k);
    let at = b.most_constrained();
    let x = at.0;
    let y = at.1;
    let v = b.choices(x, y)[k];
    let child = b.children()[k];
    lemma_place_cells(b, x, y, v);
    assert forall|x1: int, y1: int, x2: int, y2: int|
        child.in_range(x1, y1) && child.in_range(x2, y2) && (x1 != x2 || y1 != y2) && child.sees(
            x1,
            y1,
            x2,
            y2,
        ) && #[trigger] child.cell(x1, y1) != 0 implies child.cell(x1, y1) != #[trigger] child.cell(
        x2,
        y2,
    ) by {
        if x1 == x && y1 == y {
            lemma_no_peer_holds(b, x, y, v, x2, y2);
        } else if x2 == x && y2 == y {
            lemma_no_peer_holds(b, x, y, v, x1, y1);
        } else {
            assert(b.cell(x1, y1) != b.cell(x2, y2));
        }
    }
}

/// No cell that shares a row, a column or a block with a cell holds one
/// of that cell's candidates.
pub proof fn lemma_no_peer_holds(b: Board, x: int, y: int, v: usize, x2: int, y2: int)
    requires
        b.in_range(x, y),
        b.in_range(x2, y2),
        b.candidates(x, y).contains(v),
        b.sees(x, y, x2, y2),
    ensures
        b.cell(x2, y2) != v,
{
    if b.cell(x2, y2) == v {
        if y2 == y {
            assert(b.row_used(y).contains(v));
        } else if x2 == x {
            assert(b.col_used(x).contains(v));
        } else {
            assert(b.block_used(b.block_of(x, y)).contains(v));
        }
    }
}

/// Every grid that the search returns for a grid without a duplicate is
/// a finished grid without a duplicate: no cell of it is empty, no
/// value stands twice in a row, a column or a block, and every value of
/// the starting grid is kept.
pub proof fn lemma_solutions_valid(b: Board, s: Board)
    requires
        b.wf(),
        b.consistent(),
        b.solutions().contains(s),
    ensures
        s.is_solution_of(b),
    decreases b.blanks(),
{
    lemma_solutions_complete(b, s);
    if b.is_complete() {
        assert(b.solutions()[0] == b);
    } else {
        lemma_of_first_members(b, b.children().len(), s);
        let j = choose|j: int| j < b.children().len() && #[trigger] found_under(b, j, s);
        lemma_child(b, j);
        lemma_child_consistent(b, j);
        lemma_solutions_valid(b.children()[j], s);
    }
}

/// A grid that a rule-abiding grid completes has no duplicate itself.
pub proof fn lemma_base_consistent(b: Board, h: Board)
    requires
        h.is_solution_of(b),
    ensures
        b.consistent(),
{
    assert forall|x1: int, y1: int, x2: int, y2: int|
        b.in_range(x1, y1) && b.in_range(x2, y2) && (x1 != x2 || y1 != y2) && b.sees(
            x1,
            y1,
            x2,
            y2,
        ) && #[trigger] b.cell(x1, y1) != 0 implies b.cell(x1, y1) != #[trigger] b.cell(x2, y2) by {
        if b.cell(x1, y1) == b.cell(x2, y2) {
            assert(h.cell(x1, y1) == b.cell(x1, y1));
            assert(h.cell(x2, y2) == b.cell(x2, y2));
            assert(h.sees(x1, y1, x2, y2));
        }
    }
}

/// The search misses nothing: every finished, rule-abiding grid that
/// completes a grid is among those that the search returns for it.
pub proof fn lemma_solutions_exhaustive(b: Board, h: Board)
    requires
        b.wf(),
        h.is_solution_of(b),
    ensures
        b.solutions().contains(h),
    decreases b.blanks(),
{
    if b.is_complete() {
        assert forall|x: int, y: int| h.in_range(x, y) implies #[trigger] h.cell(x, y) == b.cell(
            x,
            y,
        ) by {
            assert(b.cell(x, y) != 0);
        }
        lemma_same_cells(h, b);
        assert(b.solutions()[0] == h);
    } else {
        lemma_most_constrained(b);
        let at = b.most_constrained();
        let x = at.0;
        let y = at.1;
        let v = h.cell(x, y);
        lemma_cells_bounded(h);
        assert(h.in_range(x, y));
        assert(v != 0);
        assert(!b.row_used(y).contains(v)) by {
            if b.row_used(y).contains(v) {
                let x2 = choose|x2: int| 0 <= x2 < b.side() && #[trigger] b.cell(x2, y) == v;
                assert(h.cell(x2, y) == v);
                assert(h.sees(x, y, x2, y));
            }
        }
        assert(!b.col_used(x).contains(v)) by {
            if b.col_used(x).contains(v) {
                let y2 = choose|y2: int| 0 <= y2 < b.side() && #[trigger] b.cell(x, y2) == v;
                assert(h.cell(x, y2) == v);
                assert(h.sees(x, y, x, y2));
            }
        }
        assert(!b.block_used(b.block_of(x, y)).contains(v)) by {
            if b.block_used(b.block_of(x, y)).contains(v) {
                let (x2, y2) = choose|x2: int, y2: int|
                    b.in_range(x2, y2) && b.block_of(x2, y2) == b.block_of(x, y)
                        && #[trigger] b.cell(x2, y2) == v;
                assert(h.cell(x2, y2) == v);
                assert(h.sees(x, y, x2, y2));
            }
        }
        assert(b.candidates(x, y).contains(v));
        lemma_choices_upto(b, x, y, b.side() as nat);
        let values = b.choices(x, y);
        assert(values.contains(v));
        let k = choose|k: int| 0 <= k < values.len() && values[k] == v;
        lemma_child(b, k);
        let child = b.children()[k];
        lemma_place_cells(b, x, y, v);
        assert(h.extends(child)) by {
            assert forall|x2: int, y2: int|
                child.in_range(x2, y2) && #[trigger] child.cell(x2, y2) != 0 implies h.cell(x2, y2)
                == child.cell(x2, y2) by {
                if x2 == x && y2 == y {
                } else {
                    assert(b.cell(x2, y2) == child.cell(x2, y2));
                }
            }
        }
        lemma_solutions_exhaustive(child, h);
        lemma_of_first_members(b, b.children().len(), h);
        assert(found_under(b, k, h));
    }
}

/// The search returns no grid twice.
pub proof fn lemma_solutions_distinct(b: Board)
    requires
        b.wf(),
    ensures
        b.solutions().no_duplicates(),
    decreases b.blanks(), 1nat, 0nat,
{
    if b.is_complete() {
    } else {
        lemma_of_first_distinct(b, b.children().len());
    }
}

/// What the search reaches from the first `k` children of a grid holds
/// no grid twice.
pub proof fn lemma_of_first_distinct(b: Board, k: nat)
    requires
        b.wf(),
        k <= b.children().len(),
    ensures
        b.solutions_of_first(k).no_duplicates(),
    decreases b.blanks(), 0nat, k,
{
    if k > 0 {
        let head = b.solutions_of_first((k - 1) as nat);
        let child = b.children()[k - 1];
        let tail = child.solutions();
        lemma_child(b, k - 1);
        lemma_of_first_distinct(b, (k - 1) as nat);
        lemma_solutions_distinct(child);
        let at = b.most_constrained();
        let values = b.choices(at.0, at.1);
        lemma_choices_upto(b, at.0, at.1, b.side() as nat);
        lemma_place_cells(b, at.0, at.1, values[k - 1]);
        assert forall|i: int, j: int| 0 <= i < head.len() && 0 <= j < tail.len() implies head[i]
            != tail[j] by {
            let s = head[i];
            let t = tail[j];
            assert(head.contains(s));
            assert(tail.contains(t));
            lemma_of_first_members(b, (k - 1) as nat, s);
            let c = choose|c: int| c < k - 1 && #[trigger] found_under(b, c, s);
            lemma_child(b, c);
            lemma_place_cells(b, at.0, at.1, values[c]);
            lemma_solutions_complete(b.children()[c], s);
            lemma_solutions_complete(child, t);
            assert(b.children()[c].cell(at.0, at.1) == values[c]);
            assert(child.cell(at.0, at.1) == values[k - 1]);
            assert(s.cell(at.0, at.1) == values[c]);
            assert(t.cell(at.0, at.1) == values[k - 1]);
            assert(values[c] < values[k - 1]);
        }
        lemma_no_dup_in_concat(head, tail);
    }
}

/// For a grid without a duplicate the search returns just the finished,
/// rule-abiding grids that complete it, each of them once: as many
/// grids as there are such completions.
pub proof fn lemma_solutions_are_all(b: Board)
    requires
        b.wf(),
        b.consistent(),
    ensures
        b.solutions().no_duplicates(),
        forall|h: Board| b.solutions().contains(h) <==> h.is_solution_of(b),
        b.solutions().to_set() == Set::new(|h: Board| h.is_solution_of(b)),
        b.solutions().len() == Set::new(|h: Board| h.is_solution_of(b)).len(),
{
    lemma_solutions_distinct(b);
    assert forall|h: Board| b.solutions().contains(h) <==> h.is_solution_of(b) by {
        if b.solutions().contains(h) {
            lemma_solutions_valid(b, h);
        }
        if h.is_solution_of(b) {
            lemma_solutions_exhaustive(b, h);
        }
    }
    assert(b.solutions().to_set() =~= Set::new(|h: Board| h.is_solution_of(b)));
    b.solutions().unique_seq_to_set();
}

/// Where just one finished, rule-abiding grid completes a grid, the
/// search returns that grid and no other.
pub proof fn lemma_unique_solution(b: Board, h: Board)
    requires
        b.wf(),
        h.is_solution_of(b),
        forall|g: Board| g.is_solution_of(b) ==> g == h,
    ensures
        b.solutions() == seq![h],
{
    lemma_base_consistent(b, h);
    lemma_solutions_are_all(b);
    let found = b.solutions();
    assert(found.contains(h));
    assert forall|i: int| 0 <= i < found.len() implies found[i] == h by {
        assert(found.contains(found[i]));
        lemma_solutions_valid(b, found[i]);
        assert(found[i].is_solution_of(b));
    }
    if found.len() > 1 {
        assert(found[0] == found[1]);
    }
    assert(found =~= seq![h]);
}

/// Two runs of the search on the same grid return the same grids in the
/// same order.
pub proof fn lemma_search_repeats(
    first: Solve,
    first_found: Seq<Arc<Solve>>,
    second: Solve,
    second_found: Seq<Arc<Solve>>,
)
    requires
        first@ == second@,
        Solve::boards(first_found) == first@.solutions(),
        Solve::boards(second_found) == second@.solutions(),
    ensures
        Solve::boards(first_found) == Solve::boards(second_found),
        first_found.len() == second_found.len(),
{
    assert(Solve::boards(first_found).len() == first_found.len());
    assert(Solve::boards(second_found).len() == second_found.len());
}

/// A cell has finitely many candidates, all of them values of the
/// order.
pub proof fn lemma_candidates_finite(b: Board, x: int, y: int)
    ensures
        b.candidates(x, y).finite(),
        b.candidates(x, y).len() <= 16,
{
    let all = set![
        1usize,
        2usize,
        3usize,
        4usize,
        5usize,
        6usize,
        7usize,
        8usize,
        9usize,
        10usize,
        11usize,
        12usize,
        13usize,
        14usize,
        15usize,
        16usize,
    ];
    assert(b.candidates(x, y).subset_of(all));
    lemma_len_subset(b.candidates(x, y), all);
}

/// A grid with an empty cell that no value can go to has no solution:
/// the search returns nothing for it.
pub proof fn lemma_dead_end(b: Board, x: int, y: int)
    requires
        b.wf(),
        b.is_empty_at(x, y),
        b.candidates(x, y) == Set::<usize>::empty(),
    ensures
        b.solutions() == Seq::<Board>::empty(),
{
    assert(!b.is_complete());
    lemma_most_constrained(b);
    let at = b.most_constrained();
    assert(b.is_empty_at(x, y) && crate::search::precedes(x, y, 0, b.side()));
    assert(b.options(at.0, at.1) <= b.options(x, y));
    lemma_candidates_finite(b, at.0, at.1);
    b.candidates(at.0, at.1).lemma_len0_is_empty();
    lemma_choices_upto(b, at.0, at.1, b.side() as nat);
    let values = b.choices(at.0, at.1);
    if values.len() > 0 {
        assert(b.candidates(at.0, at.1).contains(values[0]));
    }
    assert(b.children().len() == 0);
    assert(b.solutions() =~= Seq::<Board>::empty());
}

/// A grid in which a value stands twice in a row, a column or a block
/// has no rule-abiding completion: whatever the search returns for it
/// still holds the duplicate.
pub proof fn lemma_contradiction_stays(b: Board, s: Board)
    requires
        b.wf(),
        !b.consistent(),
        b.solutions().contains(s),
    ensures
        !s.consistent(),
{
    lemma_solutions_complete(b, s);
    if s.consistent() {
        lemma_base_consistent(b, s);
    }
}

/// Whatever the search writes into an empty cell differs from what the
/// cells that share a row, a column or a block with it hold in the end.
pub proof fn lemma_solutions_lawful(b: Board, s: Board)
    requires
        b.wf(),
        b.solutions().contains(s),
    ensures
        s.fills_lawfully(b),
    decreases b.blanks(),
{
    lemma_solutions_complete(b, s);
    if b.is_complete() {
        assert forall|x: int, y: int| !b.is_empty_at(x, y) by {
            if b.in_range(x, y) {
                assert(b.cell(x, y) != 0);
            }
        }
    } else {
        lemma_of_first_members(b, b.children().len(), s);
        let j = choose|j: int| j < b.children().len() && #[trigger] found_under(b, j, s);
        lemma_child(b, j);
        let child = b.children()[j];
        let at = b.most_constrained();
        let v = b.choices(at.0, at.1)[j];
        lemma_solutions_lawful(child, s);
        lemma_solutions_complete(child, s);
        lemma_place_cells(b, at.0, at.1, v);
        assert(child.cell(at.0, at.1) == v);
        assert(s.cell(at.0, at.1) == v);
        assert forall|x: int, y: int, x2: int, y2: int|
            b.is_empty_at(x, y) && s.in_range(x2, y2) && (x != x2 || y != y2) && #[trigger] s.sees(
                x,
                y,
                x2,
                y2,
            ) implies s.cell(x, y) != s.cell(x2, y2) by {
            if x == at.0 && y == at.1 {
                assert(child.cell(x2, y2) == b.cell(x2, y2));
                if b.cell(x2, y2) != 0 {
                    assert(s.cell(x2, y2) == child.cell(x2, y2));
                    lemma_no_peer_holds(b, x, y, v, x2, y2);
                } else {
                    assert(child.is_empty_at(x2, y2));
                    assert(s.sees(x2, y2, x, y));
                }
            } else {
                assert(child.cell(x, y) == b.cell(x, y));
                assert(child.is_empty_at(x, y));
            }
        }
    }
}

/// A function that gives different results on different members of a
/// finite set has at least as many results as the set has members.
proof fn lemma_no_injection(domain: Set<int>, target: Set<int>, f: spec_fn(int) -> int)
    requires
        domain.finite(),
        target.finite(),
        injective_on(f, domain),
        forall|a: int| domain.contains(a) ==> target.contains(#[trigger] f(a)),
    ensures
        domain.len() <= target.len(),
{
    let image = domain.map(f);
    lemma_map_size(domain, image, f);
    assert forall|e: int| image.contains(e) implies target.contains(e) by {
        let a = choose|a: int| domain.contains(a) && e == f(a);
        assert(target.contains(f(a)));
    }
    lemma_len_subset(image, target);
}

/// A full row in which no value stands twice holds every value of the
/// order.
pub proof fn lemma_row_holds_value(s: Board, r: int, v: usize)
    requires
        s.wf(),
        s.is_complete(),
        0 <= r < s.side(),
        1 <= v <= s.side(),
        forall|a: int, c: int|
            0 <= a < s.side() && 0 <= c < s.side() && a != c ==> #[trigger] s.cell(a, r)
                != #[trigger] s.cell(c, r),
    ensures
        s.row_used(r).contains(v),
{
    broadcast use vstd::set::group_set_axioms;

    let n = s.side();
    if !(exists|x: int| 0 <= x < n && #[trigger] s.cell(x, r) == v) {
        let f = |x: int| s.cell(x, r) as int;
        let domain = set_int_range(0, n);
        let target = set_int_range(1, n + 1).remove(v as int);
        lemma_int_range(0, n);
        lemma_int_range(1, n + 1);
        lemma_cells_bounded(s);
        assert forall|a: int, c: int|
            domain.contains(a) && domain.contains(c) && #[trigger] f(a) == #[trigger] f(
                c,
            ) implies a == c by {
            if a != c {
                assert(s.cell(a, r) != s.cell(c, r));
            }
        }
        assert(injective_on(f, domain));
        assert forall|a: int| domain.contains(a) implies target.contains(#[trigger] f(a)) by {
            assert(s.in_range(a, r));
            assert(s.cell(a, r) != 0);
            assert(s.cell(a, r) <= n);
            assert(s.cell(a, r) != v);
        }
        lemma_no_injection(domain, target, f);
        assert(set_int_range(1, n + 1).contains(v as int));
        assert(false);
    }
}

/// A grid in which a value stands twice in a row, while no other two
/// cells clash, has no solution: the search returns nothing for it.
pub proof fn lemma_row_clash_unsolvable(b: Board, x1: int, x2: int, y: int)
    requires
        b.wf(),
        b.clash(x1, y, x2, y),
        b.only_clash(x1, y, x2, y),
    ensures
        b.solutions() == Seq::<Board>::empty(),
{
    broadcast use vstd::set::group_set_axioms;

    if b.solutions().len() > 0 {
        let s = b.solutions()[0];
        assert(b.solutions().contains(s));
        lemma_solutions_complete(b, s);
        lemma_solutions_lawful(b, s);
        lemma_cells_bounded(s);
        lemma_cells_bounded(b);
        let n = b.side();
        let v = b.cell(x1, y);
        assert(s.cell(x1, y) == v && s.cell(x2, y) == v);
        assert forall|a: int, e: int, c: int, d: int| #[trigger] s.clash(a, e, c, d) implies (a
            == x1 && e == y && c == x2 && d == y) || (a == x2 && e == y && c == x1 && d == y) by {
            if b.cell(a, e) == 0 {
                assert(b.is_empty_at(a, e));
                assert(s.sees(a, e, c, d));
            } else if b.cell(c, d) == 0 {
                assert(b.is_empty_at(c, d));
                assert(s.sees(c, d, a, e));
            } else {
                assert(s.cell(a, e) == b.cell(a, e));
                assert(s.cell(c, d) == b.cell(c, d));
                assert(b.sees(a, e, c, d));
                assert(b.clash(a, e, c, d));
            }
        }
        assert forall|r: int| 0 <= r < n && r != y implies #[trigger] s.row_used(r).contains(
            v,
        ) by {
            assert forall|a: int, c: int| 0 <= a < n && 0 <= c < n && a != c implies #[trigger] s.cell(
                a,
                r,
            ) != #[trigger] s.cell(c, r) by {
                if s.cell(a, r) == s.cell(c, r) {
                    assert(s.in_range(a, r));
                    assert(s.cell(a, r) != 0);
                    assert(s.clash(a, r, c, r));
                }
            }
            lemma_row_holds_value(s, r, v);
        }
        let column = |r: int| choose|x: int| 0 <= x < n && #[trigger] s.cell(x, r) == v;
        let rows = set_int_range(0, n).remove(y);
        let columns = set_int_range(0, n).remove(x1).remove(x2);
        lemma_int_range(0, n);
        assert forall|r: int| rows.contains(r) implies 0 <= #[trigger] column(r) < n && s.cell(
            column(r),
            r,
        ) == v && column(r) != x1 && column(r) != x2 by {
            let c = column(r);
            assert(s.row_used(r).contains(v));
            assert(0 <= c < n && s.cell(c, r) == v);
            assert(s.in_range(c, r));
            if c == x1 || c == x2 {
                assert(s.clash(c, r, c, y));
            }
        }
        assert forall|r: int, q: int|
            rows.contains(r) && rows.contains(q) && #[trigger] column(r) == #[trigger] column(
                q,
            ) implies r == q by {
            if r != q {
                assert(s.clash(column(r), r, column(q), q));
            }
        }
        assert(injective_on(column, rows));
        assert forall|r: int| rows.contains(r) implies columns.contains(#[trigger] column(r)) by {}
        lemma_no_injection(rows, columns, column);
        assert(set_int_range(0, n).contains(y));
        assert(set_int_range(0, n).contains(x1));
        assert(set_int_range(0, n).remove(x1).contains(x2));
        assert(false);
    }
    assert(b.solutions() =~= Seq::<Board>::empty());
}

} // verus!
