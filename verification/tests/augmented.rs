use sudoku_solver::sudoku::augmented::{AugmentedSudoku, AugmentedValue};
use sudoku_solver::sudoku::{Sudoku, SudokuValue};

fn plain(grid: &Sudoku) -> String {
    let n = grid.order();
    let mut out = String::new();
    for r in 0..n {
        for c in 0..n {
            out.push_str(&grid.get(r, c).format());
        }
    }
    out
}

fn marks(text: &str) -> AugmentedSudoku {
    AugmentedSudoku::from(Sudoku::from_str(text).expect("a grid"))
}

fn candidates(grid: &AugmentedSudoku, r: usize, c: usize) -> Vec<u8> {
    (1..=grid.order() as u8).filter(|d| grid.allows(r, c, *d)).collect()
}

fn table(grid: &AugmentedSudoku) -> Vec<Vec<u8>> {
    let n = grid.order();
    let mut out = Vec::new();
    for r in 0..n {
        for c in 0..n {
            out.push(candidates(grid, r, c));
        }
    }
    out
}

#[test]
fn value_is_fixed_tells_the_two_kinds_apart() {
    assert!(AugmentedValue::from(3).is_fixed());
    assert!(!AugmentedValue::any_digit(4).is_fixed());
}

#[test]
fn value_remove_strikes_a_candidate_once() {
    let mut cell = AugmentedValue::any_digit(4);
    assert!(cell.remove(3));
    assert!(!cell.remove(3));
    assert!(!cell.remove(5));
    assert!(!cell.remove(0));
    match &cell {
        AugmentedValue::Possible(set) => {
            let mut left: Vec<u8> = set.iter().copied().collect();
            left.sort();
            assert_eq!(left, vec![1, 2, 4]);
        },
        AugmentedValue::Fixed(_) => panic!("still undecided"),
    }
}

#[test]
fn value_remove_leaves_a_fixed_cell_alone() {
    let mut cell = AugmentedValue::from(3);
    assert!(!cell.remove(3));
    assert!(matches!(cell, AugmentedValue::Fixed(3)));
}

#[test]
fn value_clone_is_independent() {
    let cell = AugmentedValue::any_digit(9);
    let mut copy = cell.clone();
    assert!(copy.remove(9));
    assert!(matches!(&cell, AugmentedValue::Possible(set) if set.len() == 9));
    assert!(matches!(&copy, AugmentedValue::Possible(set) if set.len() == 8));
}

#[test]
fn any_digit_holds_one_to_the_side() {
    match AugmentedValue::any_digit(16) {
        AugmentedValue::Possible(set) => {
            assert_eq!(set.len(), 16);
            assert!((1..=16u8).all(|d| set.contains(&d)));
            assert!(!set.contains(&0));
        },
        AugmentedValue::Fixed(_) => panic!("undecided"),
    }
}

#[test]
fn cell_from_augmented_keeps_a_fixed_digit_only() {
    assert_eq!(SudokuValue::from(AugmentedValue::from(7)).0, Some(7));
    assert_eq!(SudokuValue::from(AugmentedValue::any_digit(9)).0, None);
}

#[test]
fn from_grid_starts_with_every_digit_possible() {
    let grid = marks("1.3..4......2..1");
    assert_eq!(grid.order(), 4);
    assert!(grid.get(0, 0).is_fixed());
    assert!(matches!(grid.get(0, 0), AugmentedValue::Fixed(1)));
    assert!(matches!(grid.get(1, 1), AugmentedValue::Fixed(4)));
    assert!(matches!(grid.get(3, 0), AugmentedValue::Fixed(2)));
    assert!(!grid.get(0, 1).is_fixed());
    assert_eq!(candidates(&grid, 0, 1), vec![1, 2, 3, 4]);
    assert_eq!(candidates(&grid, 2, 2), vec![1, 2, 3, 4]);
    assert_eq!(candidates(&grid, 0, 0), Vec::<u8>::new());
    assert_eq!(grid.count(0, 1), 4);
    assert_eq!(grid.count(0, 0), 0);
}

#[test]
fn to_grid_of_from_grid_is_the_grid() {
    for text in [
        "1234341221434321",
        "1.3..4......2..1",
        "................",
        "1111111111111111",
        ".......16.4...5.......2.......6..43.2...1....3.....5.......37..1..8.......2......",
        "527438916841965273693721854718659432259314687364287591486193725175842369932576148",
    ] {
        assert_eq!(plain(&Sudoku::from(marks(text))), text);
    }
}

#[test]
fn to_grid_drops_the_candidates() {
    let mut grid = marks("1.3..4......2..1");
    grid.prune_possible();
    assert_eq!(plain(&Sudoku::from(grid)), "1.3..4......2..1");
}

#[test]
fn prune_strikes_the_digits_of_fixed_peers() {
    let mut grid = marks("1.3..4......2..1");
    grid.prune_possible();
    // row 0: 1 and 3; column 1: 4; box: 1 and 4
    assert_eq!(candidates(&grid, 0, 1), vec![2]);
    // row 0: 1, 3; column 3: 1; box: 3
    assert_eq!(candidates(&grid, 0, 3), vec![2, 4]);
    // row 1: 4; column 0: 1, 2; box: 1, 4
    assert_eq!(candidates(&grid, 1, 0), vec![3]);
    // row 2: nothing; column 2: 3; box: 1
    assert_eq!(candidates(&grid, 2, 2), vec![2, 4]);
    // row 3: 2, 1; column 1: 4; box: 2
    assert_eq!(candidates(&grid, 3, 1), vec![3]);
    assert!(matches!(grid.get(0, 0), AugmentedValue::Fixed(1)));
    assert_eq!(grid.count(0, 3), 2);
}

#[test]
fn prune_twice_is_prune_once() {
    for text in [
        "1.3..4......2..1",
        "................",
        "123....4........",
        "11..............",
        ".......16.4...5.......2.......6..43.2...1....3.....5.......37..1..8.......2......",
    ] {
        let mut once = marks(text);
        once.prune_possible();
        let mut twice = marks(text);
        twice.prune_possible();
        twice.prune_possible();
        assert_eq!(table(&once), table(&twice));
        assert_eq!(plain(&Sudoku::from(once)), plain(&Sudoku::from(twice)));
    }
}

#[test]
fn prune_can_leave_a_cell_without_candidates() {
    let mut grid = marks("123....4........");
    grid.prune_possible();
    assert_eq!(candidates(&grid, 0, 3), Vec::<u8>::new());
    assert_eq!(grid.count(0, 3), 0);
    assert!(!grid.get(0, 3).is_fixed());
    assert_eq!(grid.most_constrained(), Some((0, 3)));
}

#[test]
fn remove_value_strikes_along_row_column_and_box() {
    let mut grid = marks("................................................................................." );
    grid.remove_value((4, 7), 5);
    for r in 0..9 {
        for c in 0..9 {
            let hit = r == 4 || c == 7 || (r / 3 == 1 && c / 3 == 2);
            assert_eq!(grid.allows(r, c, 5), !hit, "cell {r} {c}");
            assert_eq!(grid.count(r, c), if hit { 8 } else { 9 });
            assert!(grid.allows(r, c, 4));
        }
    }
}

#[test]
fn remove_value_of_side_four_hits_the_right_box() {
    let mut grid = marks("................");
    grid.remove_value((2, 1), 3);
    let expected = [
        [true, false, true, true],
        [true, false, true, true],
        [false, false, false, false],
        [false, false, true, true],
    ];
    for r in 0..4 {
        for c in 0..4 {
            assert_eq!(grid.allows(r, c, 3), expected[r][c], "cell {r} {c}");
        }
    }
}

#[test]
fn fix_value_decides_a_cell_on_a_copy() {
    let mut grid = marks("1.3..4......2..1");
    grid.prune_possible();
    let before = table(&grid);
    let next = grid.fix_value((2, 2), 4);
    assert_eq!(table(&grid), before);
    assert!(!grid.get(2, 2).is_fixed());
    assert!(matches!(next.get(2, 2), AugmentedValue::Fixed(4)));
    assert_eq!(plain(&Sudoku::from(next.clone())), "1.3..4....4.2..1");
    // 4 left the peers of (2, 2)
    assert_eq!(candidates(&next, 0, 3), vec![2, 4]);
    assert_eq!(candidates(&next, 2, 3), vec![2, 3]);
    assert_eq!(candidates(&next, 2, 0), vec![3]);
    assert_eq!(candidates(&next, 3, 2), Vec::<u8>::new());
    assert_eq!(candidates(&next, 1, 2), vec![1, 2]);
}

#[test]
fn fix_value_inplace_decides_a_cell() {
    let mut grid = marks("................");
    grid.fix_value_inplace((0, 0), 2);
    assert!(matches!(grid.get(0, 0), AugmentedValue::Fixed(2)));
    assert_eq!(candidates(&grid, 0, 3), vec![1, 3, 4]);
    assert_eq!(candidates(&grid, 3, 0), vec![1, 3, 4]);
    assert_eq!(candidates(&grid, 1, 1), vec![1, 3, 4]);
    assert_eq!(candidates(&grid, 1, 2), vec![1, 2, 3, 4]);
    assert_eq!(plain(&Sudoku::from(grid)), "2...............");
}

#[test]
fn fixing_candidates_keeps_the_grid_valid() {
    let mut grid = marks("1.3..4......2..1");
    grid.prune_possible();
    let mut steps = 0;
    while let Some((r, c)) = grid.first_possible() {
        let open = candidates(&grid, r, c);
        if open.is_empty() {
            break;
        }
        grid = grid.fix_value((r, c), open[0]);
        assert!(Sudoku::from(grid.clone()).valid());
        steps += 1;
    }
    assert!(steps > 0);
}

#[test]
fn first_possible_reads_row_by_row() {
    assert_eq!(marks("1.3..4......2..1").first_possible(), Some((0, 1)));
    assert_eq!(marks("1234.4......2..1").first_possible(), Some((1, 0)));
    assert_eq!(marks("1234341221434321").first_possible(), None);
}

#[test]
fn most_constrained_takes_the_fewest_candidates() {
    let mut grid = marks("1.3..4......2..1");
    grid.prune_possible();
    // (0, 1), (1, 0) and (3, 1) each have one candidate; the first one wins
    assert_eq!(grid.most_constrained(), Some((0, 1)));
    assert_eq!(grid.count(0, 1), 1);
    assert_eq!(grid.only_candidate(0, 1), 2);
    let n = grid.order();
    for r in 0..n {
        for c in 0..n {
            if !grid.get(r, c).is_fixed() {
                assert!(grid.count(r, c) >= 1);
            }
        }
    }
}

#[test]
fn most_constrained_breaks_ties_by_reading_order() {
    let grid = marks("................");
    assert_eq!(grid.most_constrained(), Some((0, 0)));
    let mut grid = marks("1...............");
    grid.prune_possible();
    assert_eq!(grid.most_constrained(), Some((0, 1)));
    let mut grid = marks("...........1....");
    grid.prune_possible();
    // the first cell that lost a candidate is in the column of the given
    assert_eq!(grid.most_constrained(), Some((0, 3)));
}

#[test]
fn most_constrained_is_none_when_all_is_decided() {
    assert_eq!(marks("1234341221434321").most_constrained(), None);
    assert_eq!(marks("1111111111111111").most_constrained(), None);
}

#[test]
fn clone_of_a_grid_with_candidates_is_independent() {
    let grid = marks("................");
    let mut copy = grid.clone();
    copy.fix_value_inplace((1, 1), 4);
    assert_eq!(grid.count(1, 1), 4);
    assert_eq!(candidates(&grid, 0, 0), vec![1, 2, 3, 4]);
    assert!(copy.get(1, 1).is_fixed());
    assert_eq!(candidates(&copy, 0, 0), vec![1, 2, 3]);
}

#[test]
fn value_format_lists_candidates_in_ascending_order() {
    assert_eq!(AugmentedValue::from(7).format(), "7");
    assert_eq!(AugmentedValue::from(225).format(), "225");
    assert_eq!(AugmentedValue::any_digit(4).format(), "[ 1 2 3 4 ]");
    assert_eq!(AugmentedValue::any_digit(12).format(), "[ 1 2 3 4 5 6 7 8 9 10 11 12 ]");
    let mut cell = AugmentedValue::any_digit(4);
    cell.remove(2);
    assert_eq!(cell.format(), "[ 1 3 4 ]");
    cell.remove(1);
    cell.remove(3);
    cell.remove(4);
    assert_eq!(cell.format(), "[ ]");
}

#[test]
fn format_draws_a_grid_with_candidates() {
    let mut grid = marks("1.3..4......2..1");
    let expected = "\
+-------------------------+-------------------------+
|      1      [ 1 2 3 4 ] |      3      [ 1 2 3 4 ] |
| [ 1 2 3 4 ]      4      | [ 1 2 3 4 ] [ 1 2 3 4 ] |
+-------------------------+-------------------------+
| [ 1 2 3 4 ] [ 1 2 3 4 ] | [ 1 2 3 4 ] [ 1 2 3 4 ] |
|      2      [ 1 2 3 4 ] | [ 1 2 3 4 ]      1      |
+-------------------------+-------------------------+";
    assert_eq!(grid.format(), expected);
    grid.prune_possible();
    let expected = "\
+-------------------------+-------------------------+
|      1         [ 2 ]    |      3        [ 2 4 ]   |
|    [ 3 ]         4      |   [ 1 2 ]      [ 2 ]    |
+-------------------------+-------------------------+
|   [ 3 4 ]     [ 1 3 ]   |   [ 2 4 ]    [ 2 3 4 ]  |
|      2         [ 3 ]    |    [ 4 ]         1      |
+-------------------------+-------------------------+";
    assert_eq!(grid.format(), expected);
}
