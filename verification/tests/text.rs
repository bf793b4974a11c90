use sudoku::sudoku::{ParseError, Sudoku, SudokuMaxNumber};

const SUDOKU_1: &str = "260 050 038
400 007 006
000 010 000

090 000 000
301 020 607
000 000 040

000 060 000
700 800 009
950 070 013
";

const SUDOKU_2: &str = "+---+---+---+
|000|803|000|
|009|000|300|
|081|645|270|
+---+---+---+
|402|000|608|
|003|080|400|
|708|000|105|
+---+---+---+
|064|539|710|
|007|000|900|
|000|104|000|
+---+---+---+
";

fn cells(sudoku: &Sudoku) -> Vec<usize> {
    let side = sudoku.order().side_length();
    let mut all = Vec::new();
    for y in 0..side {
        for x in 0..side {
            all.push(sudoku.get(x, y));
        }
    }
    all
}

#[test]
fn it_works() {
    let sudoku_1 = SUDOKU_1;
    let sudoku_2 = SUDOKU_2;

    let sudoku_1_parsed = Sudoku::from(SudokuMaxNumber::Nr9, sudoku_1).unwrap();
    println!("{}", sudoku_1_parsed.to_string());

    let sudoku_2_parsed = Sudoku::from(SudokuMaxNumber::Nr9, sudoku_2).unwrap();
    println!("{}", sudoku_2_parsed.to_string());
}

#[test]
fn a_text_is_read_in_reading_order() {
    let sudoku = Sudoku::from(SudokuMaxNumber::Nr9, SUDOKU_1).unwrap();
    assert_eq!(
        cells(&sudoku),
        vec![
            2, 6, 0, 0, 5, 0, 0, 3, 8, 4, 0, 0, 0, 0, 7, 0, 0, 6, 0, 0, 0, 0, 1, 0, 0, 0, 0, 0, 9,
            0, 0, 0, 0, 0, 0, 0, 3, 0, 1, 0, 2, 0, 6, 0, 7, 0, 0, 0, 0, 0, 0, 0, 4, 0, 0, 0, 0, 0,
            6, 0, 0, 0, 0, 7, 0, 0, 8, 0, 0, 0, 0, 9, 9, 5, 0, 0, 7, 0, 0, 1, 3
        ]
    );
}

#[test]
fn decoration_is_passed_over() {
    let sudoku = Sudoku::from(SudokuMaxNumber::Nr9, SUDOKU_2).unwrap();
    assert_eq!(
        sudoku.to_string(),
        "+---+---+---+\n|000|803|000|\n|009|000|300|\n|081|645|270|\n+---+---+---+\n|402|000|608|\n|003|080|400|\n|708|000|105|\n+---+---+---+\n|064|539|710|\n|007|000|900|\n|000|104|000|\n+---+---+---+"
    );
}

#[test]
fn reading_counts_what_it_passes_over() {
    let reading = Sudoku::read(SudokuMaxNumber::Nr4, "12 x4|9\nfA0");
    assert_eq!(reading.cells, vec![1, 2, 4, 0]);
    assert_eq!(reading.discarded, 4);
    assert_eq!(reading.incorrect_range, vec![9, 15, 10]);
}

#[test]
fn reading_takes_letters_of_either_case() {
    let reading = Sudoku::read(SudokuMaxNumber::Nr16, "09afAFgG");
    assert_eq!(reading.cells, vec![0, 9, 10, 15, 10, 15]);
    assert_eq!(reading.discarded, 2);
    assert_eq!(reading.incorrect_range, Vec::<usize>::new());
}

#[test]
fn reading_an_empty_text_finds_nothing() {
    let reading = Sudoku::read(SudokuMaxNumber::Nr9, "");
    assert!(reading.cells.is_empty());
    assert!(reading.incorrect_range.is_empty());
    assert_eq!(reading.discarded, 0);
}

#[test]
fn reading_passes_over_other_alphabets() {
    let reading = Sudoku::read(SudokuMaxNumber::Nr9, "1\u{e9}2\u{663}3");
    assert_eq!(reading.cells, vec![1, 2, 3]);
    assert_eq!(reading.discarded, 2);
}

#[test]
fn too_few_values_give_no_grid() {
    assert!(Sudoku::from(SudokuMaxNumber::Nr4, "").is_none());
    assert!(Sudoku::from(SudokuMaxNumber::Nr4, "123412341234123").is_none());
    assert!(Sudoku::from(SudokuMaxNumber::Nr9, "1234123412341234").is_none());
    assert!(Sudoku::from(SudokuMaxNumber::Nr16, "1234123412341234").is_none());
    let eighty = "0".repeat(80);
    assert!(Sudoku::from(SudokuMaxNumber::Nr9, &eighty).is_none());
}

#[test]
fn too_many_values_give_no_grid() {
    assert!(Sudoku::from(SudokuMaxNumber::Nr4, "12341234123412341").is_none());
    let many = "0".repeat(82);
    assert!(Sudoku::from(SudokuMaxNumber::Nr9, &many).is_none());
    let many = "0".repeat(257);
    assert!(Sudoku::from(SudokuMaxNumber::Nr16, &many).is_none());
}

#[test]
fn just_enough_values_give_a_grid() {
    assert!(Sudoku::from(SudokuMaxNumber::Nr4, "1234123412341234").is_some());
    assert!(Sudoku::from(SudokuMaxNumber::Nr9, &"0".repeat(81)).is_some());
    assert!(Sudoku::from(SudokuMaxNumber::Nr16, &"f".repeat(256)).is_some());
}

#[test]
fn values_above_the_order_do_not_count() {
    // sixteen values of which one is too large for the order
    assert!(Sudoku::from(SudokuMaxNumber::Nr4, "1234123412341235").is_none());
    // the value that is too large is passed over, the others make the grid
    let sudoku = Sudoku::from(SudokuMaxNumber::Nr4, "12341234123412354").unwrap();
    assert_eq!(cells(&sudoku), vec![1, 2, 3, 4, 1, 2, 3, 4, 1, 2, 3, 4, 1, 2, 3, 4]);
    assert!(Sudoku::from(SudokuMaxNumber::Nr9, &"a".repeat(81)).is_none());
}

#[test]
fn the_smallest_order_that_fits_is_taken() {
    let small = Sudoku::parse("0034 3412 0043 4321").unwrap();
    assert_eq!(small.order(), SudokuMaxNumber::Nr4);
    let middle = Sudoku::parse(SUDOKU_1).unwrap();
    assert_eq!(middle.order(), SudokuMaxNumber::Nr9);
    assert_eq!(cells(&middle), cells(&Sudoku::from(SudokuMaxNumber::Nr9, SUDOKU_1).unwrap()));
    let large = Sudoku::parse(&"c".repeat(256)).unwrap();
    assert_eq!(large.order(), SudokuMaxNumber::Nr16);
    assert_eq!(large.get(15, 15), 12);
}

#[test]
fn a_text_that_fits_no_order_is_refused() {
    assert_eq!(Sudoku::parse("").err(), Some(ParseError::CellCount));
    assert_eq!(Sudoku::parse("123").err(), Some(ParseError::CellCount));
    assert_eq!(Sudoku::parse(&"0".repeat(100)).err(), Some(ParseError::CellCount));
    assert_eq!(
        Sudoku::parse(
            "530070000600195000098000060800060003400803001700020006060000280000419005000080"
        )
        .err(),
        Some(ParseError::CellCount)
    );
}

#[test]
fn grids_are_parsed_from_str() {
    let sudoku: Sudoku = SUDOKU_2.parse().unwrap();
    assert_eq!(sudoku.order(), SudokuMaxNumber::Nr9);
    assert_eq!(sudoku.get(3, 0), 8);
    let refused: Result<Sudoku, ParseError> = "nothing".parse();
    assert_eq!(refused.err(), Some(ParseError::CellCount));
}

#[test]
fn orders_are_named_by_their_size() {
    assert_eq!(SudokuMaxNumber::parse("4x4"), Ok(SudokuMaxNumber::Nr4));
    assert_eq!(SudokuMaxNumber::parse("9x9"), Ok(SudokuMaxNumber::Nr9));
    assert_eq!(SudokuMaxNumber::parse("16x16"), Ok(SudokuMaxNumber::Nr16));
    assert_eq!("9x9".parse::<SudokuMaxNumber>(), Ok(SudokuMaxNumber::Nr9));
}

#[test]
fn other_names_are_refused() {
    assert_eq!(SudokuMaxNumber::parse(""), Err(ParseError::Size));
    assert_eq!(SudokuMaxNumber::parse("9"), Err(ParseError::Size));
    assert_eq!(SudokuMaxNumber::parse("9X9"), Err(ParseError::Size));
    assert_eq!(SudokuMaxNumber::parse(" 4x4"), Err(ParseError::Size));
    assert_eq!("25x25".parse::<SudokuMaxNumber>(), Err(ParseError::Size));
}

#[test]
fn errors_come_with_advice() {
    assert_eq!(ParseError::Size.message(), "Try one of these: '4x4', '9x9' or '16x16'");
    assert_eq!(
        ParseError::CellCount.message(),
        "Try something like this one:\n260 050 038\n400 007 006\n000 010 000\n\n090 000 000\n301 020 607\n000 000 040\n\n000 060 000\n700 800 009\n950 070 013\n"
    );
}

#[test]
fn the_advice_holds_a_grid() {
    // the letters of its first line are no values of the order 9
    let reading = Sudoku::read(SudokuMaxNumber::Nr9, "Try something like this one:");
    assert!(reading.cells.is_empty());
    assert_eq!(reading.incorrect_range, vec![14, 14, 14]);
    let sudoku = Sudoku::parse(ParseError::CellCount.message()).unwrap();
    assert_eq!(sudoku.order(), SudokuMaxNumber::Nr9);
    assert_eq!(sudoku.get(0, 0), 2);
    assert_eq!(sudoku.get(1, 0), 6);
    assert_eq!(sudoku.get(8, 8), 3);
}

#[test]
fn an_empty_grid_of_order_4_is_printed() {
    assert_eq!(
        Sudoku::new(SudokuMaxNumber::Nr4).to_string(),
        "+--+--+\n|00|00|\n|00|00|\n+--+--+\n|00|00|\n|00|00|\n+--+--+"
    );
}

#[test]
fn a_grid_of_order_4_is_printed() {
    let sudoku = Sudoku::from(SudokuMaxNumber::Nr4, "1234341221434321").unwrap();
    assert_eq!(
        sudoku.to_string(),
        "+--+--+\n|12|34|\n|34|12|\n+--+--+\n|21|43|\n|43|21|\n+--+--+"
    );
}

#[test]
fn a_grid_of_order_9_is_printed() {
    let sudoku = Sudoku::from(SudokuMaxNumber::Nr9, SUDOKU_1).unwrap();
    assert_eq!(
        sudoku.to_string(),
        "+---+---+---+\n|260|050|038|\n|400|007|006|\n|000|010|000|\n+---+---+---+\n|090|000|000|\n|301|020|607|\n|000|000|040|\n+---+---+---+\n|000|060|000|\n|700|800|009|\n|950|070|013|\n+---+---+---+"
    );
}

#[test]
fn a_grid_of_order_16_is_printed() {
    let mut sudoku = Sudoku::new(SudokuMaxNumber::Nr16);
    sudoku.set(0, 0, 16);
    sudoku.set(1, 0, 10);
    sudoku.set(2, 0, 9);
    sudoku.set(15, 0, 1);
    sudoku.set(4, 15, 12);
    let border = "+-----------+-----------+-----------+-----------+";
    let empty = "| 0  0  0  0| 0  0  0  0| 0  0  0  0| 0  0  0  0|";
    let first = "|16 10  9  0| 0  0  0  0| 0  0  0  0| 0  0  0  1|";
    let last = "| 0  0  0  0|12  0  0  0| 0  0  0  0| 0  0  0  0|";
    let mut expected = String::new();
    for y in 0..16 {
        if y % 4 == 0 {
            expected += border;
            expected += "\n";
        }
        expected += if y == 0 {
            first
        } else if y == 15 {
            last
        } else {
            empty
        };
        expected += "\n";
    }
    expected += border;
    assert_eq!(sudoku.to_string(), expected);
}

#[test]
fn a_printed_grid_is_read_back() {
    let sudoku = Sudoku::from(SudokuMaxNumber::Nr9, SUDOKU_1).unwrap();
    let again = Sudoku::from(SudokuMaxNumber::Nr9, &sudoku.to_string()).unwrap();
    assert_eq!(cells(&again), cells(&sudoku));
    let small = Sudoku::from(SudokuMaxNumber::Nr4, "0034341200434321").unwrap();
    let again = Sudoku::from(SudokuMaxNumber::Nr4, &small.to_string()).unwrap();
    assert_eq!(cells(&again), cells(&small));
}

#[test]
fn a_printed_grid_of_order_16_is_read_back_while_its_values_have_one_digit() {
    let mut sudoku = Sudoku::new(SudokuMaxNumber::Nr16);
    sudoku.set(3, 2, 9);
    sudoku.set(15, 15, 1);
    let again = Sudoku::from(SudokuMaxNumber::Nr16, &sudoku.to_string()).unwrap();
    assert_eq!(cells(&again), cells(&sudoku));
    sudoku.set(0, 0, 12);
    assert!(Sudoku::from(SudokuMaxNumber::Nr16, &sudoku.to_string()).is_none());
}
