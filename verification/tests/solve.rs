use sudoku_solver::sudoku::solve::{dfs, naive_dfs, sorted_dfs, SudokuResult};
use sudoku_solver::sudoku::Sudoku;

const PUZZLE_54: &str =
    ".......16.4...5.......2.......6..43.2...1....3.....5.......37..1..8.......2......";
const SOLUTION_54: &str =
    "527438916841965273693721854718659432259314687364287591486193725175842369932576148";

fn cells(grid: &Sudoku) -> String {
    let n = grid.order();
    let mut out = String::new();
    for r in 0..n {
        for c in 0..n {
            out.push_str(&grid.get(r, c).format());
        }
    }
    out
}

fn read(text: &str) -> Sudoku {
    Sudoku::from_str(text).expect("a grid")
}

fn outcome(result: &SudokuResult) -> Result<String, String> {
    match result {
        Ok(grid) => Ok(cells(grid)),
        Err(grid) => Err(cells(grid)),
    }
}

fn keeps_givens(given: &str, done: &str) -> bool {
    given.len() == done.len() && given.chars().zip(done.chars()).all(|(g, d)| g == '.' || g == d)
}

#[test]
fn puzzle54_solvable() {
    let sudoku: Sudoku =
        ".......16.4...5.......2.......6..43.2...1....3.....5.......37..1..8.......2......"
            .parse()
            .expect("Successful parse");

    assert!(dfs(sudoku).is_ok())
}

#[test]
fn puzzle54_has_one_solution_and_both_candidate_searches_find_it() {
    assert_eq!(outcome(&sorted_dfs(read(PUZZLE_54))), Ok(SOLUTION_54.to_string()));
    assert_eq!(outcome(&dfs(read(PUZZLE_54))), Ok(SOLUTION_54.to_string()));
}

#[test]
fn sorted_solves_the_default_puzzle() {
    let text = ".......1.4.........2...........5.4.7..8...3....1.9....3..4..2...5.1........8.6...";
    let result = sorted_dfs(read(text));
    let done = result.expect("a solution");
    assert!(done.solved());
    assert!(keeps_givens(text, &cells(&done)));
}

#[test]
fn one_given_per_row_column_and_box_is_completed() {
    let text = "1...........2...........3...4...........5...........6...7...........8...........9";
    for result in [dfs(read(text)), sorted_dfs(read(text))] {
        let done = result.expect("a solution");
        assert!(done.solved());
        let line = cells(&done);
        assert!(keeps_givens(text, &line));
        let digits: Vec<u8> = line.bytes().map(|b| b - b'0').collect();
        for unit in 0..9 {
            let mut row = [false; 10];
            let mut col = [false; 10];
            let mut boxed = [false; 10];
            for k in 0..9 {
                row[digits[unit * 9 + k] as usize] = true;
                col[digits[k * 9 + unit] as usize] = true;
                let r = unit / 3 * 3 + k / 3;
                let c = unit % 3 * 3 + k % 3;
                boxed[digits[r * 9 + c] as usize] = true;
            }
            assert!((1..=9).all(|d| row[d] && col[d] && boxed[d]));
        }
    }
}

#[test]
fn empty_grid_of_side_four_is_completed_by_every_strategy() {
    for result in [
        naive_dfs(read("................")),
        dfs(read("................")),
        sorted_dfs(read("................")),
    ] {
        let done = result.expect("a solution");
        assert!(done.solved());
        assert_eq!(done.order(), 4);
    }
}

#[test]
fn ascending_search_finds_the_first_completion() {
    assert_eq!(outcome(&naive_dfs(read("................"))), Ok("1234341221434321".to_string()));
    assert_eq!(outcome(&dfs(read("................"))), Ok("1234341221434321".to_string()));
    assert_eq!(outcome(&naive_dfs(read("1..............1"))), Ok("1234341221434321".to_string()));
}

#[test]
fn solved_grid_comes_back_as_it_is() {
    let text = "1234341221434321";
    assert_eq!(outcome(&naive_dfs(read(text))), Ok(text.to_string()));
    assert_eq!(outcome(&dfs(read(text))), Ok(text.to_string()));
    assert_eq!(outcome(&sorted_dfs(read(text))), Ok(text.to_string()));
    assert_eq!(outcome(&naive_dfs(read(SOLUTION_54))), Ok(SOLUTION_54.to_string()));
    assert_eq!(outcome(&dfs(read(SOLUTION_54))), Ok(SOLUTION_54.to_string()));
    assert_eq!(outcome(&sorted_dfs(read(SOLUTION_54))), Ok(SOLUTION_54.to_string()));
}

#[test]
fn one_missing_cell_is_filled() {
    let text = "12343412214343.1";
    let full = "1234341221434321";
    assert_eq!(outcome(&naive_dfs(read(text))), Ok(full.to_string()));
    assert_eq!(outcome(&dfs(read(text))), Ok(full.to_string()));
    assert_eq!(outcome(&sorted_dfs(read(text))), Ok(full.to_string()));
}

#[test]
fn nearly_full_grid_of_side_nine_is_completed_by_every_strategy() {
    let mut text = String::from(SOLUTION_54);
    for at in [0usize, 10, 20, 30, 40, 50, 60, 70, 80, 4, 76] {
        text.replace_range(at..at + 1, ".");
    }
    assert_eq!(outcome(&naive_dfs(read(&text))), Ok(SOLUTION_54.to_string()));
    assert_eq!(outcome(&dfs(read(&text))), Ok(SOLUTION_54.to_string()));
    assert_eq!(outcome(&sorted_dfs(read(&text))), Ok(SOLUTION_54.to_string()));
}

#[test]
fn two_equal_digits_in_a_row_fail_every_strategy() {
    let text = "11..............";
    assert_eq!(outcome(&naive_dfs(read(text))), Err(text.to_string()));
    assert_eq!(outcome(&dfs(read(text))), Err(text.to_string()));
    assert!(sorted_dfs(read(text)).is_err());
}

#[test]
fn cell_without_candidates_fails_every_strategy() {
    // the last cell of the first row sees 1, 2, 3 in its row and 4 below it
    let text = "123....4........";
    assert!(read(text).valid());
    assert_eq!(outcome(&naive_dfs(read(text))), Err(text.to_string()));
    assert_eq!(outcome(&dfs(read(text))), Err(text.to_string()));
    assert_eq!(outcome(&sorted_dfs(read(text))), Err(text.to_string()));
}

#[test]
fn failed_plain_and_pruned_search_hand_the_grid_back() {
    let text = "12.......3......";
    let naive = naive_dfs(read(text));
    let pruned = dfs(read(text));
    assert_eq!(naive.is_ok(), pruned.is_ok());
    if let Err(left) = &naive {
        assert_eq!(cells(left), text);
    }
    if let Err(left) = &pruned {
        assert_eq!(cells(left), text);
    }
}

#[test]
fn failed_sorted_search_keeps_what_it_decided_on_the_spot() {
    // valid, every empty cell has a candidate, and still there is no completion
    let text = "........1.....32";
    assert!(read(text).valid());
    assert_eq!(outcome(&naive_dfs(read(text))), Err(text.to_string()));
    assert_eq!(outcome(&dfs(read(text))), Err(text.to_string()));
    assert_eq!(outcome(&sorted_dfs(read(text))), Err("........1.4...32".to_string()));
}

#[test]
fn strategies_agree_on_grids_of_side_four() {
    let puzzles = [
        "................",
        "1...............",
        "12..34..........",
        "1234............",
        "1..2..3..4......",
        "1.....2.....3...",
        "4..........3.2..",
        "12.......3......",
        "........1.....32",
        "...1..4....2.4..",
        "..4.1..3...4...1",
        "..4......43....2",
        ".23...2....4....",
        "123....4........",
        ".1.2.3.4........",
        "1.2.3.4.........",
        "1...2...3...4...",
        "1....2....3....4",
        "...1..2..3..4...",
        "12344321........",
        "1234341221434321",
        "1234341221434312",
        "3.......1.....2.",
    ];
    for text in puzzles {
        if !read(text).valid() {
            assert!(naive_dfs(read(text)).is_err());
            continue;
        }
        let naive = naive_dfs(read(text));
        let pruned = dfs(read(text));
        let sorted = sorted_dfs(read(text));
        assert_eq!(naive.is_ok(), pruned.is_ok(), "{text}");
        assert_eq!(naive.is_ok(), sorted.is_ok(), "{text}");
        for result in [naive, pruned, sorted] {
            if let Ok(done) = result {
                assert!(done.solved(), "{text}");
                assert!(keeps_givens(text, &cells(&done)), "{text}");
            }
        }
    }
}

#[test]
fn plain_search_fails_on_an_invalid_grid() {
    assert!(naive_dfs(read("1111111111111111")).is_err());
    assert!(naive_dfs(read("1....1..........")).is_err());
    assert!(naive_dfs(read("1234341221434312")).is_err());
}

#[test]
fn digit_above_the_side_is_kept_as_a_given() {
    // a 9 in a grid of side four: the other cells still take 1 to 4
    let text = "9...............";
    for result in [naive_dfs(read(text)), dfs(read(text)), sorted_dfs(read(text))] {
        let done = result.expect("a completion");
        assert!(done.solved());
        assert_eq!(done.get(0, 0).0, Some(9));
        assert!(cells(&done)[1..].bytes().all(|b| (b'1'..=b'4').contains(&b)));
    }
}

#[test]
fn candidate_searches_do_not_look_at_the_given_digits() {
    // no cell is left to decide, so the grid comes back as it is
    let text = "1111111111111111";
    assert!(!read(text).valid());
    assert!(naive_dfs(read(text)).is_err());
    assert_eq!(outcome(&dfs(read(text))), Ok(text.to_string()));
    assert_eq!(outcome(&sorted_dfs(read(text))), Ok(text.to_string()));
}
