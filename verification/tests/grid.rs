use bit_set::BitSet;
use sudoku::config::{Command, Options};
use sudoku::sudoku::{Sudoku, SudokuMaxNumber};

const CLASSIC: &str =
    "530070000600195000098000060800060003400803001700020006060000280000419005000080079";

fn members(set: &BitSet) -> Vec<usize> {
    set.iter().collect()
}

#[test]
fn sizes_of_the_three_orders() {
    assert_eq!(SudokuMaxNumber::Nr4.side_parts(), 2);
    assert_eq!(SudokuMaxNumber::Nr9.side_parts(), 3);
    assert_eq!(SudokuMaxNumber::Nr16.side_parts(), 4);
    assert_eq!(SudokuMaxNumber::Nr4.side_length(), 4);
    assert_eq!(SudokuMaxNumber::Nr9.side_length(), 9);
    assert_eq!(SudokuMaxNumber::Nr16.side_length(), 16);
    assert_eq!(SudokuMaxNumber::Nr4.lines_per_part(), 2);
    assert_eq!(SudokuMaxNumber::Nr9.lines_per_part(), 3);
    assert_eq!(SudokuMaxNumber::Nr16.lines_per_part(), 4);
    assert_eq!(SudokuMaxNumber::Nr4.nr_fields(), 16);
    assert_eq!(SudokuMaxNumber::Nr9.nr_fields(), 81);
    assert_eq!(SudokuMaxNumber::Nr16.nr_fields(), 256);
}

#[test]
fn a_side_is_a_block_side_squared() {
    for order in [SudokuMaxNumber::Nr4, SudokuMaxNumber::Nr9, SudokuMaxNumber::Nr16] {
        let parts = order.side_parts();
        assert_eq!(order.side_length(), parts * parts);
        assert_eq!(order.nr_fields(), order.side_length() * order.side_length());
        assert_eq!(order.nr_fields(), parts * parts * parts * parts);
    }
}

#[test]
fn a_new_grid_is_empty() {
    for order in [SudokuMaxNumber::Nr4, SudokuMaxNumber::Nr9, SudokuMaxNumber::Nr16] {
        let sudoku = Sudoku::new(order);
        assert_eq!(sudoku.order(), order);
        assert_eq!(sudoku.smn, order);
        for y in 0..order.side_length() {
            for x in 0..order.side_length() {
                assert_eq!(sudoku.get(x, y), 0);
            }
        }
    }
}

#[test]
fn set_changes_one_cell() {
    let mut sudoku = Sudoku::new(SudokuMaxNumber::Nr9);
    sudoku.set(4, 7, 9);
    for y in 0..9 {
        for x in 0..9 {
            let expected = if x == 4 && y == 7 { 9 } else { 0 };
            assert_eq!(sudoku.get(x, y), expected);
        }
    }
    sudoku.set(4, 7, 0);
    assert_eq!(sudoku.get(4, 7), 0);
}

#[test]
fn cells_are_stored_row_after_row() {
    let sudoku = Sudoku::from(SudokuMaxNumber::Nr4, "1234 0000 0000 4321").unwrap();
    assert_eq!(sudoku.get(0, 0), 1);
    assert_eq!(sudoku.get(1, 0), 2);
    assert_eq!(sudoku.get(2, 0), 3);
    assert_eq!(sudoku.get(3, 0), 4);
    assert_eq!(sudoku.get(0, 3), 4);
    assert_eq!(sudoku.get(3, 3), 1);
    assert_eq!(sudoku.get(0, 1), 0);
}

#[test]
fn rows_hold_their_values_without_zero() {
    let sudoku = Sudoku::from(SudokuMaxNumber::Nr9, CLASSIC).unwrap();
    let rows = sudoku.horizontals();
    assert_eq!(rows.len(), 9);
    assert_eq!(members(&rows[0]), vec![3, 5, 7]);
    assert_eq!(members(&rows[1]), vec![1, 5, 6, 9]);
    assert_eq!(members(&rows[2]), vec![6, 8, 9]);
    assert_eq!(members(&rows[8]), vec![7, 8, 9]);
    for row in rows.iter() {
        assert!(!row.contains(0));
    }
}

#[test]
fn columns_hold_their_values_without_zero() {
    let sudoku = Sudoku::from(SudokuMaxNumber::Nr9, CLASSIC).unwrap();
    let columns = sudoku.verticals();
    assert_eq!(columns.len(), 9);
    assert_eq!(members(&columns[0]), vec![4, 5, 6, 7, 8]);
    assert_eq!(members(&columns[1]), vec![3, 6, 9]);
    assert_eq!(members(&columns[4]), vec![1, 2, 6, 7, 8, 9]);
    assert_eq!(members(&columns[8]), vec![1, 3, 5, 6, 9]);
    for column in columns.iter() {
        assert!(!column.contains(0));
    }
}

#[test]
fn blocks_hold_their_values_without_zero() {
    let sudoku = Sudoku::from(SudokuMaxNumber::Nr9, CLASSIC).unwrap();
    let blocks = sudoku.squares();
    assert_eq!(blocks.len(), 9);
    assert_eq!(members(&blocks[0]), vec![3, 5, 6, 8, 9]);
    assert_eq!(members(&blocks[1]), vec![1, 5, 7, 9]);
    assert_eq!(members(&blocks[2]), vec![6]);
    assert_eq!(members(&blocks[3]), vec![4, 7, 8]);
    assert_eq!(members(&blocks[4]), vec![2, 3, 6, 8]);
    assert_eq!(members(&blocks[8]), vec![2, 5, 7, 8, 9]);
    for block in blocks.iter() {
        assert!(!block.contains(0));
    }
}

#[test]
fn blocks_are_numbered_row_after_row() {
    let mut sudoku = Sudoku::new(SudokuMaxNumber::Nr4);
    sudoku.set(3, 0, 1);
    sudoku.set(0, 3, 2);
    sudoku.set(2, 2, 3);
    let blocks = sudoku.squares();
    assert_eq!(members(&blocks[0]), Vec::<usize>::new());
    assert_eq!(members(&blocks[1]), vec![1]);
    assert_eq!(members(&blocks[2]), vec![2]);
    assert_eq!(members(&blocks[3]), vec![3]);
}

#[test]
fn sets_of_an_empty_grid_are_empty() {
    let sudoku = Sudoku::new(SudokuMaxNumber::Nr16);
    for sets in [sudoku.horizontals(), sudoku.verticals(), sudoku.squares()] {
        assert_eq!(sets.len(), 16);
        for set in sets.iter() {
            assert!(set.is_empty());
        }
    }
}

#[test]
fn sets_hold_the_largest_value() {
    let mut sudoku = Sudoku::new(SudokuMaxNumber::Nr16);
    sudoku.set(15, 15, 16);
    assert_eq!(members(&sudoku.horizontals()[15]), vec![16]);
    assert_eq!(members(&sudoku.verticals()[15]), vec![16]);
    assert_eq!(members(&sudoku.squares()[15]), vec![16]);
}

#[test]
fn default_options_solve_nothing() {
    let options = Options::default();
    assert!(!options.debug);
    match options.cmd {
        Command::Solve { sudokus } => assert!(sudokus.is_empty()),
        _ => panic!("the default command solves"),
    }
}
