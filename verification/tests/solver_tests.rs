use sudoku::solver::{
    get_best_guess, get_guess_options, get_relevant_cells, remove_all_non_possibilities,
    remove_non_possibilities, solve,
};
use sudoku::Board;

const EASY_0: &str = "
    6--|1--|--2
    8-1|-9-|---
    -75|-84|---

    43-|-2-|561
    518|7--|4-9
    -96|41-|3--

    ---|-7-|---
    -6-|-31|-5-
    7-2|54-|6-3";

fn digit_of(mask: u16) -> u32 {
    assert_eq!(mask.count_ones(), 1);
    mask.trailing_zeros() + 1
}

fn assert_complete_and_valid(b: &Board) {
    assert!(b.is_full());
    for i in 0..81usize {
        assert_eq!(b.cells[i].count_ones(), 1);
        for p in get_relevant_cells(i) {
            assert_ne!(b.cells[i], b.cells[p], "peers {} and {} share a digit", i, p);
        }
    }
}

fn assert_refines(solution: &Board, puzzle: &Board) {
    for i in 0..81 {
        assert_eq!(solution.cells[i] & puzzle.cells[i], solution.cells[i]);
    }
}

#[test]
fn peers_of_corner_cell() {
    let peers = get_relevant_cells(0);
    assert_eq!(peers.len(), 20);
    let mut expected: Vec<usize> = vec![1, 2, 3, 4, 5, 6, 7, 8]; // row 0
    expected.extend([9, 18, 27, 36, 45, 54, 63, 72]); // column 0
    expected.extend([10, 11, 19, 20]); // rest of box 0
    expected.sort();
    let mut got = peers.clone();
    got.sort();
    assert_eq!(got, expected);
}

#[test]
fn peers_of_middle_cell() {
    let peers = get_relevant_cells(40); // row 4, column 4, box 4
    assert_eq!(peers.len(), 20);
    for p in &peers {
        let (r, c) = (p / 9, p % 9);
        let same_row = r == 4;
        let same_col = c == 4;
        let same_box = r / 3 == 1 && c / 3 == 1;
        assert!(*p != 40 && (same_row || same_col || same_box));
    }
}

#[test]
fn propagation_is_idempotent() {
    let mut b = Board::init(EASY_0);
    assert!(remove_all_non_possibilities(&mut b));
    let after_once: Vec<u16> = b.cells.clone();
    assert!(remove_all_non_possibilities(&mut b));
    assert_eq!(b.cells, after_once);
}

#[test]
fn propagation_never_adds_candidates() {
    let mut b = Board::init(EASY_0);
    let before: Vec<u16> = b.cells.clone();
    assert!(remove_all_non_possibilities(&mut b));
    for i in 0..81 {
        assert!(b.cells[i].count_ones() <= before[i].count_ones());
        // and in fact only candidates present before survive
        assert_eq!(b.cells[i] & before[i], b.cells[i]);
    }
}

#[test]
fn contradiction_between_peers_detected() {
    let mut b = Board::new();
    // two cells in the same row, both forced to digit 5
    b.set_cell(3, 5);
    b.set_cell(7, 5);
    assert!(!remove_all_non_possibilities(&mut b));
}

#[test]
fn contradiction_from_single_cell_propagation() {
    let mut b = Board::new();
    b.set_cell(10, 8);
    b.set_cell(20, 8); // same box as cell 10
    assert!(!remove_non_possibilities(&mut b, 10));
}

#[test]
fn nine_root_placements_on_empty_row() {
    // an empty puzzle: every digit is a legal first guess
    let b = Board::new();
    assert_eq!(get_best_guess(&b), Some(0));
    let options = get_guess_options(&b.cells[0]);
    assert_eq!(options.len(), 9);
    for (d, mask) in options.iter().enumerate() {
        assert_eq!(*mask, 1u16 << d);
    }
}

#[test]
fn best_guess_prefers_fewest_candidates() {
    let mut b = Board::new();
    b.cells[17] = 0b000_011_100; // three candidates
    b.cells[33] = 0b000_000_011; // two candidates
    b.cells[50] = 0b110_011_100; // five candidates
    assert_eq!(get_best_guess(&b), Some(33));
    // a resolved cell is never chosen
    b.cells[5] = 0b000_010_000;
    assert_eq!(get_best_guess(&b), Some(33));
    // ties break toward the lowest index
    b.cells[12] = 0b000_000_110;
    assert_eq!(get_best_guess(&b), Some(12));
}

#[test]
fn best_guess_none_when_complete() {
    let mut b = Board::new();
    for i in 0..81usize {
        b.set_cell(i, ((i % 9) + 1) as u8);
    }
    assert_eq!(get_best_guess(&b), None);
}

#[test]
fn guess_options_follow_the_mask() {
    assert_eq!(get_guess_options(&0), vec![]);
    assert_eq!(get_guess_options(&0b000_010_001), vec![1, 0b000_010_000]);
    assert_eq!(get_guess_options(&0b100_000_000), vec![0b100_000_000]);
}

#[test]
fn unique_puzzle_has_exactly_one_solution() {
    let puzzle = Board::init(EASY_0);
    let solutions = solve(&puzzle);
    assert_eq!(solutions.len(), 1);
    let s = &solutions[0];
    assert_complete_and_valid(s);
    assert_refines(s, &puzzle);
}

#[test]
fn complete_input_is_its_own_sole_solution() {
    let solved = solve(&Board::init(EASY_0)).pop().unwrap();
    let again = solve(&solved);
    assert_eq!(again.len(), 1);
    for i in 0..81 {
        assert_eq!(again[0].cells[i], solved.cells[i]);
    }
}

#[test]
fn unsolvable_puzzle_yields_no_solutions() {
    let mut b = Board::new();
    b.set_cell(0, 5);
    b.set_cell(8, 5); // same row: contradiction
    assert!(solve(&b).is_empty());
}

#[test]
fn ambiguous_puzzle_yields_distinct_valid_solutions() {
    // blank every 1 and 2 of a solved grid: swapping the two digits in the
    // blanked cells gives at least a second solution
    let solved = solve(&Board::init(EASY_0)).pop().unwrap();
    let mut puzzle = Board::new();
    for i in 0..81usize {
        let d = digit_of(solved.cells[i]);
        if d > 2 {
            puzzle.set_cell(i, d as u8);
        }
    }
    let solutions = solve(&puzzle);
    assert!(solutions.len() >= 2);
    for s in &solutions {
        assert_complete_and_valid(s);
        assert_refines(s, &puzzle);
    }
    for a in 0..solutions.len() {
        for b in (a + 1)..solutions.len() {
            assert_ne!(solutions[a].cells, solutions[b].cells);
        }
    }
}
