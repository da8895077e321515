use sudoku::Board;

const EASY_0: &str = "
    6--|1--|--2
    8-1|-9-|---
    -75|-84|---

    43-|-2-|561
    518|7--|4-9
    -96|41-|3--

    ---|-7-|---
    -6-|-31|-5-
    7-2|54-|6-3";

#[test]
fn new_board_is_unconstrained() {
    let b = Board::new();
    assert_eq!(b.cells.len(), 81);
    for i in 0..81 {
        assert_eq!(b.cells[i], 0b111_111_111);
        assert!(!b.is_cell_known(i));
    }
    assert!(!b.is_full());
}

#[test]
fn init_reads_givens_and_blanks() {
    let b = Board::init(EASY_0);
    // row 0: 6--|1--|--2
    assert_eq!(b.cells[0], 1u16 << 5); // digit 6
    assert_eq!(b.cells[1], 0b111_111_111); // blank
    assert_eq!(b.cells[3], 1u16 << 0); // digit 1
    assert_eq!(b.cells[8], 1u16 << 1); // digit 2
    // last row: 7-2|54-|6-3
    assert_eq!(b.cells[72], 1u16 << 6); // digit 7
    assert_eq!(b.cells[80], 1u16 << 2); // digit 3
    assert!(b.is_cell_known(0));
    assert!(!b.is_cell_known(1));
}

#[test]
fn init_ignores_formatting_bytes() {
    let with_noise = "1 2x3|45\t6789 ";
    let plain = "123456789";
    let a = Board::init(with_noise);
    let b = Board::init(plain);
    for i in 0..81 {
        assert_eq!(a.cells[i], b.cells[i]);
    }
}

#[test]
fn set_cell_forces_single_digit() {
    let mut b = Board::new();
    b.set_cell(40, 5);
    assert_eq!(b.cells[40], 1u16 << 4);
    assert!(b.is_cell_known(40));
}

#[test]
fn cell_by_coords_matches_flat_index() {
    let mut b = Board::new();
    // box (1, 2), offset (0, 1): row 7, column 3, flat index 66
    b.set_cell(66, 9);
    assert_eq!(b.cell_by_coords(1, 2, 0, 1), 1u16 << 8);
    assert_eq!(b.cell_by_coords(0, 0, 0, 0), 0b111_111_111);
}

#[test]
fn known_cells_have_exactly_one_candidate() {
    assert!(!Board::is_cell_known_by_value(0));
    assert!(Board::is_cell_known_by_value(1));
    assert!(Board::is_cell_known_by_value(0b100));
    assert!(Board::is_cell_known_by_value(1 << 8));
    assert!(!Board::is_cell_known_by_value(0b101));
    assert!(!Board::is_cell_known_by_value(0b111_111_111));
}

#[test]
fn resolved_digit_reads_single_bit_masks() {
    for d in 1..=9u8 {
        assert_eq!(Board::resolved_digit(1u16 << (d - 1)), Some(d));
    }
    assert_eq!(Board::resolved_digit(0), None);
    assert_eq!(Board::resolved_digit(0b11), None);
    assert_eq!(Board::resolved_digit(0b111_111_111), None);
}

#[test]
fn full_board_detected() {
    let mut b = Board::new();
    for i in 0..81usize {
        assert!(!b.is_full());
        b.set_cell(i, ((i % 9) + 1) as u8);
    }
    assert!(b.is_full());
}

#[test]
fn duplicate_is_independent() {
    let a = Board::init(EASY_0);
    let mut b = a.duplicate();
    for i in 0..81 {
        assert_eq!(a.cells[i], b.cells[i]);
    }
    b.set_cell(1, 4);
    assert_eq!(a.cells[1], 0b111_111_111);
    assert_eq!(b.cells[1], 1u16 << 3);
}
