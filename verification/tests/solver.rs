use std::sync::Arc;
use sudoku::solve::Solve;
use sudoku::sudoku::{Sudoku, SudokuMaxNumber};

fn cells(sudoku: &Sudoku) -> Vec<usize> {
    let side = sudoku.order().side_length();
    let mut all = Vec::new();
    for y in 0..side {
        for x in 0..side {
            all.push(sudoku.get(x, y));
        }
    }
    all
}

fn grid(order: SudokuMaxNumber, text: &str) -> Sudoku {
    Sudoku::from(order, text).unwrap()
}

fn solutions(sudoku: Sudoku) -> Vec<Vec<usize>> {
    Solve::solve(Solve::new(sudoku))
        .iter()
        .map(|node| cells(&Solve::to_sudoku(node)))
        .collect()
}

/// Every cell is filled and no value stands twice in a row, a column or
/// a block.
fn is_finished(order: SudokuMaxNumber, cells: &[usize]) -> bool {
    let side = order.side_length();
    let parts = order.side_parts();
    let at = |x: usize, y: usize| cells[x + y * side];
    for i in 0..side {
        let mut row = vec![false; side + 1];
        let mut column = vec![false; side + 1];
        let mut block = vec![false; side + 1];
        for j in 0..side {
            let in_row = at(j, i);
            let in_column = at(i, j);
            let in_block = at((i % parts) * parts + j % parts, (i / parts) * parts + j / parts);
            for (seen, value) in [(&mut row, in_row), (&mut column, in_column), (&mut block, in_block)]
            {
                if value == 0 || value > side || seen[value] {
                    return false;
                }
                seen[value] = true;
            }
        }
    }
    true
}

fn keeps(found: &[usize], given: &[usize]) -> bool {
    found.iter().zip(given.iter()).all(|(f, g)| *g == 0 || f == g)
}

fn digits(text: &str) -> Vec<usize> {
    text.chars().filter_map(|c| c.to_digit(16)).map(|d| d as usize).collect()
}

const CLASSIC: &str =
    "530070000600195000098000060800060003400803001700020006060000280000419005000080079";

const CLASSIC_SOLVED: &str =
    "534678912672195348198342567859761423426853791713924856961537284287419635345286179";

#[test]
fn the_classic_puzzle_has_one_solution() {
    let found = solutions(grid(SudokuMaxNumber::Nr9, CLASSIC));
    assert_eq!(found.len(), 1);
    assert_eq!(found[0], digits(CLASSIC_SOLVED));
    assert!(is_finished(SudokuMaxNumber::Nr9, &found[0]));
}

#[test]
fn the_classic_puzzle_is_printed_solved() {
    let found = Solve::solve(Solve::new(grid(SudokuMaxNumber::Nr9, CLASSIC)));
    assert_eq!(found.len(), 1);
    assert_eq!(
        Solve::to_sudoku(&found[0]).to_string(),
        "+---+---+---+\n|534|678|912|\n|672|195|348|\n|198|342|567|\n+---+---+---+\n|859|761|423|\n|426|853|791|\n|713|924|856|\n+---+---+---+\n|961|537|284|\n|287|419|635|\n|345|286|179|\n+---+---+---+"
    );
}

#[test]
fn a_puzzle_with_gaps_and_decoration_is_solved() {
    let text = "260 050 038
400 007 006
000 010 000

090 000 000
301 020 607
000 000 040

000 060 000
700 800 009
950 070 013
";
    let given = cells(&grid(SudokuMaxNumber::Nr9, text));
    let found = solutions(grid(SudokuMaxNumber::Nr9, text));
    assert!(!found.is_empty());
    for solution in found.iter() {
        assert!(is_finished(SudokuMaxNumber::Nr9, solution));
        assert!(keeps(solution, &given));
    }
    for (i, one) in found.iter().enumerate() {
        for other in found.iter().skip(i + 1) {
            assert_ne!(one, other);
        }
    }
}

#[test]
fn a_second_puzzle_has_one_solution() {
    let text = "000803000009000300081645270402000608003080400708000105064539710007000900000104000";
    let found = solutions(grid(SudokuMaxNumber::Nr9, text));
    assert_eq!(found.len(), 1);
    assert!(is_finished(SudokuMaxNumber::Nr9, &found[0]));
    assert!(keeps(&found[0], &digits(text)));
}

#[test]
fn both_solutions_are_found_the_smaller_value_first() {
    let found = solutions(grid(SudokuMaxNumber::Nr4, "0034 3412 0043 4321"));
    assert_eq!(
        found,
        vec![digits("1234 3412 2143 4321"), digits("2134 3412 1243 4321")]
    );
}

#[test]
fn all_four_solutions_are_found_row_after_row() {
    let found = solutions(grid(SudokuMaxNumber::Nr4, "1200 0012 2100 0021"));
    assert_eq!(
        found,
        vec![
            digits("1234 3412 2143 4321"),
            digits("1234 4312 2143 3421"),
            digits("1243 3412 2134 4321"),
            digits("1243 4312 2134 3421"),
        ]
    );
    for solution in found.iter() {
        assert!(is_finished(SudokuMaxNumber::Nr4, solution));
    }
}

#[test]
fn an_empty_grid_of_order_4_has_288_solutions() {
    let found = solutions(Sudoku::new(SudokuMaxNumber::Nr4));
    assert_eq!(found.len(), 288);
    for solution in found.iter() {
        assert!(is_finished(SudokuMaxNumber::Nr4, solution));
    }
    let mut sorted = found.clone();
    sorted.sort();
    sorted.dedup();
    assert_eq!(sorted.len(), 288);
    assert_eq!(found[0], digits("1234 3412 2143 4321"));
}

#[test]
fn solving_again_gives_the_same_in_the_same_order() {
    let first = solutions(grid(SudokuMaxNumber::Nr4, "1000 0000 0000 0002"));
    let second = solutions(grid(SudokuMaxNumber::Nr4, "1000 0000 0000 0002"));
    assert!(first.len() > 1);
    assert_eq!(first, second);
    let node = Solve::new(grid(SudokuMaxNumber::Nr4, "1000 0000 0000 0002"));
    let third: Vec<Vec<usize>> = Solve::solve(Arc::clone(&node))
        .iter()
        .map(|found| cells(&Solve::to_sudoku(found)))
        .collect();
    let fourth: Vec<Vec<usize>> =
        Solve::solve(node).iter().map(|found| cells(&Solve::to_sudoku(found))).collect();
    assert_eq!(third, first);
    assert_eq!(fourth, first);
}

#[test]
fn a_value_twice_in_a_row_leaves_no_solution() {
    assert!(solutions(grid(SudokuMaxNumber::Nr4, "1100 0000 0000 0000")).is_empty());
    let mut sudoku = grid(SudokuMaxNumber::Nr9, CLASSIC);
    sudoku.set(2, 0, 5);
    assert!(solutions(sudoku).is_empty());
}

#[test]
fn a_value_twice_in_a_column_or_block_leaves_no_solution() {
    assert!(solutions(grid(SudokuMaxNumber::Nr4, "1000 0000 1000 0000")).is_empty());
    assert!(solutions(grid(SudokuMaxNumber::Nr4, "1000 0100 0000 0000")).is_empty());
}

#[test]
fn a_cell_without_a_candidate_leaves_no_solution() {
    assert!(solutions(grid(SudokuMaxNumber::Nr4, "1230 0004 0000 0000")).is_empty());
}

#[test]
fn a_full_grid_is_returned_as_it_is() {
    let found = solutions(grid(SudokuMaxNumber::Nr4, "1234 3412 2143 4321"));
    assert_eq!(found, vec![digits("1234 3412 2143 4321")]);
    // the search fills empty cells and does not look at the others
    let found = solutions(grid(SudokuMaxNumber::Nr4, "1111 1111 1111 1111"));
    assert_eq!(found, vec![digits("1111 1111 1111 1111")]);
}

#[test]
fn the_last_empty_cell_is_filled() {
    let found = solutions(grid(SudokuMaxNumber::Nr4, "1234 3412 2143 4320"));
    assert_eq!(found, vec![digits("1234 3412 2143 4321")]);
}

#[test]
fn a_node_gives_back_its_grid() {
    let sudoku = grid(SudokuMaxNumber::Nr9, CLASSIC);
    let node = Solve::new(sudoku.clone());
    assert_eq!(cells(&Solve::to_sudoku(&node)), cells(&sudoku));
    assert_eq!(Solve::to_sudoku(&node).order(), SudokuMaxNumber::Nr9);
    match *node {
        Solve::Sudoku(ref inner) => assert_eq!(cells(inner), cells(&sudoku)),
        _ => panic!("a new node holds the grid"),
    }
}

#[test]
fn the_given_grid_is_not_changed() {
    let sudoku = grid(SudokuMaxNumber::Nr4, "0034 3412 0043 4321");
    let node = Solve::new(sudoku);
    let found = Solve::solve(Arc::clone(&node));
    assert_eq!(found.len(), 2);
    assert_eq!(cells(&Solve::to_sudoku(&node)), digits("0034 3412 0043 4321"));
}

#[test]
fn solutions_are_steps_from_the_given_grid() {
    let found = Solve::solve(Solve::new(grid(SudokuMaxNumber::Nr4, "1234 3412 2143 4300")));
    assert_eq!(found.len(), 1);
    match *found[0] {
        Solve::Next { ref prev, .. } => match **prev {
            Solve::Next { ref prev, .. } => match **prev {
                Solve::Sudoku(ref given) => {
                    assert_eq!(cells(given), digits("1234 3412 2143 4300"))
                }
                _ => panic!("two cells were empty"),
            },
            _ => panic!("two cells were empty"),
        },
        _ => panic!("two cells were empty"),
    }
}

fn full_grid_of_order_16() -> Sudoku {
    let mut sudoku = Sudoku::new(SudokuMaxNumber::Nr16);
    for y in 0..16 {
        for x in 0..16 {
            sudoku.set(x, y, (4 * (y % 4) + y / 4 + x) % 16 + 1);
        }
    }
    sudoku
}

#[test]
fn a_grid_of_order_16_is_completed() {
    let full = full_grid_of_order_16();
    assert!(is_finished(SudokuMaxNumber::Nr16, &cells(&full)));
    let mut sudoku = full.clone();
    for (x, y) in [(0, 0), (5, 1), (10, 2), (15, 3), (3, 7), (8, 12), (15, 15), (1, 0), (0, 9)] {
        sudoku.set(x, y, 0);
    }
    let found = solutions(sudoku);
    assert_eq!(found, vec![cells(&full)]);
}

#[test]
fn a_grid_of_order_16_with_two_solutions() {
    let full = full_grid_of_order_16();
    // rows 0 and 2 hold the same two values, in the other order, in the
    // columns 0 and 8
    assert_eq!(full.get(0, 0), 1);
    assert_eq!(full.get(8, 0), 9);
    assert_eq!(full.get(0, 2), 9);
    assert_eq!(full.get(8, 2), 1);
    let mut sudoku = full.clone();
    for (x, y) in [(0, 0), (8, 0), (0, 2), (8, 2)] {
        sudoku.set(x, y, 0);
    }
    let mut other = full.clone();
    other.set(0, 0, 9);
    other.set(8, 0, 1);
    other.set(0, 2, 1);
    other.set(8, 2, 9);
    let found = solutions(sudoku);
    assert_eq!(found, vec![cells(&full), cells(&other)]);
    for solution in found.iter() {
        assert!(is_finished(SudokuMaxNumber::Nr16, solution));
    }
}
