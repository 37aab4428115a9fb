use sudoku_solver::sudoku::{ParseError, Sudoku, SudokuValue};

fn grid_line(grid: &Sudoku) -> String {
    let n = grid.order();
    let mut out = String::new();
    for r in 0..n {
        for c in 0..n {
            out.push_str(&grid.get(r, c).format());
        }
    }
    out
}

fn grid_of(text: &str) -> Sudoku {
    Sudoku::from_str(text).expect("a grid")
}

#[test]
fn parse_reads_a_grid_of_side_four() {
    let grid = grid_of("1.3..4......2..1");
    assert_eq!(grid.order(), 4);
    assert_eq!(grid.cell_size(), 2);
    assert_eq!(grid.get(0, 0).0, Some(1));
    assert_eq!(grid.get(0, 1).0, None);
    assert_eq!(grid.get(0, 2).0, Some(3));
    assert_eq!(grid.get(1, 1).0, Some(4));
    assert_eq!(grid.get(3, 0).0, Some(2));
    assert_eq!(grid.get(3, 3).0, Some(1));
    assert_eq!(grid_line(&grid), "1.3..4......2..1");
}

#[test]
fn parse_reads_a_grid_of_side_nine() {
    let text = ".......16.4...5.......2.......6..43.2...1....3.....5.......37..1..8.......2......";
    let grid = grid_of(text);
    assert_eq!(grid.order(), 9);
    assert_eq!(grid.cell_size(), 3);
    assert_eq!(grid.get(0, 7).0, Some(1));
    assert_eq!(grid.get(0, 8).0, Some(6));
    assert_eq!(grid.get(1, 1).0, Some(4));
    assert_eq!(grid.get(8, 2).0, Some(2));
    assert_eq!(grid_line(&grid), text);
}

#[test]
fn parse_through_the_std_trait() {
    let grid: Sudoku = "1234341221434321".parse().expect("a grid");
    assert_eq!(grid_line(&grid), "1234341221434321");
    let bad: Result<Sudoku, ParseError> = "12".parse();
    assert_eq!(bad.err(), Some(ParseError::WrongLength));
}

#[test]
fn parse_accepts_digits_above_the_side() {
    let grid = grid_of("9...............");
    assert_eq!(grid.get(0, 0).0, Some(9));
}

#[test]
fn parse_refuses_a_wrong_length() {
    assert_eq!(Sudoku::from_str("").err(), Some(ParseError::WrongLength));
    assert_eq!(Sudoku::from_str("123").err(), Some(ParseError::WrongLength));
    assert_eq!(Sudoku::from_str("...............").err(), Some(ParseError::WrongLength));
    assert_eq!(Sudoku::from_str(".................").err(), Some(ParseError::WrongLength));
    let short = "1.......2........3........4........5........6........7........8........9.......";
    assert_eq!(short.len(), 79);
    assert_eq!(Sudoku::from_str(short).err(), Some(ParseError::WrongLength));
}

#[test]
fn parse_refuses_an_invalid_character() {
    assert_eq!(Sudoku::from_str("1.3..4.x....2..1").err(), Some(ParseError::InvalidCell));
    assert_eq!(Sudoku::from_str("1.3..4. ....2..1").err(), Some(ParseError::InvalidCell));
    assert_eq!(Sudoku::from_str("a...............").err(), Some(ParseError::InvalidCell));
    assert_eq!(Sudoku::from_str("...............-").err(), Some(ParseError::InvalidCell));
}

#[test]
fn parse_refuses_the_digit_zero() {
    assert_eq!(Sudoku::from_str("0...............").err(), Some(ParseError::InvalidCell));
    assert_eq!(Sudoku::from_str("1234341221434320").err(), Some(ParseError::InvalidCell));
}

#[test]
fn parse_counts_characters_not_bytes() {
    // sixteen characters, one of them two bytes long
    assert_eq!(Sudoku::from_str("é...............").err(), Some(ParseError::InvalidCell));
}

#[test]
fn cell_from_str_reads_one_character() {
    assert_eq!(SudokuValue::from_str(".").map(|v| v.0), Ok(None));
    assert_eq!(SudokuValue::from_str("1").map(|v| v.0), Ok(Some(1)));
    assert_eq!(SudokuValue::from_str("9").map(|v| v.0), Ok(Some(9)));
    assert_eq!(SudokuValue::from_str("0").map(|v| v.0), Err(ParseError::InvalidCell));
    assert_eq!(SudokuValue::from_str("x").map(|v| v.0), Err(ParseError::InvalidCell));
}

#[test]
fn cell_format_writes_digit_or_dot() {
    assert_eq!(SudokuValue(None).format(), ".");
    assert_eq!(SudokuValue(Some(7)).format(), "7");
    assert_eq!(SudokuValue(Some(10)).format(), "10");
    assert_eq!(SudokuValue(Some(42)).format(), "42");
    assert_eq!(SudokuValue(Some(100)).format(), "100");
    assert_eq!(SudokuValue(Some(225)).format(), "225");
    assert_eq!(SudokuValue::default().0, None);
}

#[test]
fn format_draws_a_grid_of_side_four() {
    let grid = grid_of("1.3..4......2..1");
    let expected = "\
+-----+-----+
| 1 . | 3 . |
| . 4 | . . |
+-----+-----+
| . . | . . |
| 2 . | . 1 |
+-----+-----+";
    assert_eq!(grid.format(), expected);
}

#[test]
fn format_draws_a_grid_of_side_nine() {
    let grid =
        grid_of(".......16.4...5.......2.......6..43.2...1....3.....5.......37..1..8.......2......");
    let expected = "\
+-------+-------+-------+
| . . . | . . . | . 1 6 |
| . 4 . | . . 5 | . . . |
| . . . | . 2 . | . . . |
+-------+-------+-------+
| . . . | 6 . . | 4 3 . |
| 2 . . | . 1 . | . . . |
| 3 . . | . . . | 5 . . |
+-------+-------+-------+
| . . . | . . 3 | 7 . . |
| 1 . . | 8 . . | . . . |
| . . 2 | . . . | . . . |
+-------+-------+-------+";
    assert_eq!(grid.format(), expected);
}

#[test]
fn format_widens_cells_for_a_grid_of_side_sixteen() {
    let mut grid = Sudoku::from_order(16);
    grid.set(0, 0, SudokuValue(Some(16)));
    grid.set(0, 5, SudokuValue(Some(7)));
    let text = grid.format();
    let lines: Vec<&str> = text.split('\n').collect();
    assert_eq!(lines.len(), 16 + 5);
    let rule = "+-------------+-------------+-------------+-------------+";
    assert_eq!(lines[0], rule);
    assert_eq!(lines[5], rule);
    assert_eq!(lines[20], rule);
    assert_eq!(lines[1], "| 16  .  .  . |  .  7  .  . |  .  .  .  . |  .  .  .  . |");
    assert_eq!(lines[2], "|  .  .  .  . |  .  .  .  . |  .  .  .  . |  .  .  .  . |");
}

#[test]
fn format_does_not_cut_a_wide_digit() {
    let mut grid = Sudoku::from_order(4);
    grid.set(1, 2, SudokuValue(Some(123)));
    let text = grid.format();
    let lines: Vec<&str> = text.split('\n').collect();
    assert_eq!(lines[2], "| . . |123 . |");
}

#[test]
fn required_padding_follows_the_side() {
    assert_eq!(Sudoku::from_order(4).required_padding(), 3);
    assert_eq!(Sudoku::from_order(9).required_padding(), 3);
    assert_eq!(Sudoku::from_order(16).required_padding(), 4);
    assert_eq!(Sudoku::from_order(81).required_padding(), 4);
    assert_eq!(Sudoku::from_order(100).required_padding(), 5);
    assert_eq!(Sudoku::from_order(225).required_padding(), 5);
}

#[test]
fn cell_size_is_the_root_of_the_side() {
    assert_eq!(Sudoku::from_order(4).cell_size(), 2);
    assert_eq!(Sudoku::from_order(9).cell_size(), 3);
    assert_eq!(Sudoku::from_order(16).cell_size(), 4);
    assert_eq!(Sudoku::from_order(25).cell_size(), 5);
    assert_eq!(Sudoku::from_order(225).cell_size(), 15);
}

#[test]
fn new_is_an_empty_grid_of_side_nine() {
    let grid = Sudoku::new();
    assert_eq!(grid.order(), 9);
    assert_eq!(grid_line(&grid), ".".repeat(81));
    assert!(!grid.filled());
    assert!(grid.valid());
    assert!(!grid.solved());
    assert_eq!(grid.first_empty(), Some((0, 0)));
}

#[test]
fn from_order_vec_lays_the_cells_out_row_by_row() {
    let mut values = Vec::new();
    for i in 1..=16u8 {
        values.push(SudokuValue(Some(i)));
    }
    let grid = Sudoku::from_order_vec(4, values);
    assert_eq!(grid.order(), 4);
    for r in 0..4 {
        for c in 0..4 {
            assert_eq!(grid.get(r, c).0, Some((r * 4 + c + 1) as u8));
        }
    }
}

#[test]
fn set_changes_one_cell() {
    let mut grid = grid_of("1.3..4......2..1");
    grid.set(2, 1, SudokuValue(Some(3)));
    assert_eq!(grid_line(&grid), "1.3..4...3..2..1");
    grid.set(0, 0, SudokuValue(None));
    assert_eq!(grid_line(&grid), "..3..4...3..2..1");
}

#[test]
fn clone_is_independent() {
    let grid = grid_of("1.3..4......2..1");
    let mut copy = grid.clone();
    copy.set(0, 1, SudokuValue(Some(2)));
    assert_eq!(grid_line(&grid), "1.3..4......2..1");
    assert_eq!(grid_line(&copy), "123..4......2..1");
}

#[test]
fn first_empty_reads_row_by_row() {
    assert_eq!(grid_of("1.3..4......2..1").first_empty(), Some((0, 1)));
    assert_eq!(grid_of("1234.4......2..1").first_empty(), Some((1, 0)));
    assert_eq!(grid_of("123434122143432.").first_empty(), Some((3, 3)));
    assert_eq!(grid_of("1234341221434321").first_empty(), None);
}

#[test]
fn filled_needs_every_cell() {
    assert!(grid_of("1234341221434321").filled());
    assert!(grid_of("1111111111111111").filled());
    assert!(!grid_of("123434122143432.").filled());
}

#[test]
fn valid_sees_a_repeat_in_a_row() {
    assert!(!grid_of("1..1............").valid());
    assert!(!grid_of("........2.2.....").valid());
}

#[test]
fn valid_sees_a_repeat_in_a_column() {
    assert!(!grid_of("1...........1...").valid());
    assert!(!grid_of("...3.......3....").valid());
}

#[test]
fn valid_sees_a_repeat_in_a_box() {
    assert!(!grid_of("1....1..........").valid());
    assert!(!grid_of("..........4....4").valid());
    assert!(grid_of("......2..2......").valid());
}

#[test]
fn valid_accepts_equal_digits_in_different_units() {
    assert!(grid_of("1.....1..1.....1").valid());
    assert!(grid_of("................").valid());
    assert!(grid_of("1234341221434321").valid());
}

#[test]
fn valid_on_a_grid_of_side_nine() {
    let solved = "527438916841965273693721854718659432259314687364287591486193725175842369932576148";
    assert!(grid_of(solved).valid());
    // the same digit twice in the middle box, in different rows and columns
    let mut grid = Sudoku::new();
    grid.set(3, 3, SudokuValue(Some(5)));
    grid.set(5, 4, SudokuValue(Some(5)));
    assert!(!grid.valid());
    // the same digit in neighbouring boxes, different rows and columns
    let mut grid = Sudoku::new();
    grid.set(3, 2, SudokuValue(Some(5)));
    grid.set(4, 3, SudokuValue(Some(5)));
    assert!(grid.valid());
}

#[test]
fn valid_set_compares_each_pair() {
    let some = |d: u8| SudokuValue(Some(d));
    let none = SudokuValue(None);
    assert!(Sudoku::valid_set(&vec![]));
    assert!(Sudoku::valid_set(&vec![vec![], vec![some(1)]]));
    assert!(Sudoku::valid_set(&vec![vec![some(1), none, none, some(2)]]));
    assert!(Sudoku::valid_set(&vec![vec![some(1), some(2)], vec![some(1), some(2)]]));
    assert!(!Sudoku::valid_set(&vec![vec![some(1), some(2)], vec![some(3), none, some(3)]]));
    assert!(!Sudoku::valid_set(&vec![vec![some(2), some(1), some(2)]]));
}

#[test]
fn solved_needs_filled_and_valid() {
    assert!(grid_of("1234341221434321").solved());
    assert!(!grid_of("1234341221434312").solved());
    assert!(!grid_of("123434122143432.").solved());
    assert!(!grid_of("1111111111111111").solved());
    let solved = "527438916841965273693721854718659432259314687364287591486193725175842369932576148";
    assert!(grid_of(solved).solved());
}
