//! The board: 81 cells, each holding a candidate set.
//!
//! Cell `i` lies in row `i / 9`, column `i % 9` and 3x3 box
//! `(row / 3) * 3 + col / 3`. A cell is resolved when its candidate set has
//! exactly one bit; the board is complete when every cell is resolved, and
//! valid when no two cells sharing a row, column or box are resolved to the
//! same digit.

use vstd::prelude::*;
use vstd::string::StringSliceAdditionalSpecFns;

use crate::masks::{in_range, is_single, lemma_shift_single, lemma_single_trick, FULL_MASK};

verus! {

/// The row of cell index `i`.
pub open spec fn row_of(i: int) -> int {
    i / 9
}

/// The column of cell index `i`.
pub open spec fn col_of(i: int) -> int {
    i % 9
}

/// The 3x3 box of cell index `i`.
pub open spec fn box_of(i: int) -> int {
    (row_of(i) / 3) * 3 + col_of(i) / 3
}

/// Two distinct cells are peers when they share a row, a column or a box.
pub open spec fn is_peer(i: int, p: int) -> bool {
    &&& 0 <= i < 81
    &&& 0 <= p < 81
    &&& i != p
    &&& (row_of(i) == row_of(p) || col_of(i) == col_of(p) || box_of(i) == box_of(p))
}

/// A well-formed board: 81 cells, each a 9-bit candidate set.
pub open spec fn wf_cells(s: Seq<u16>) -> bool {
    &&& s.len() == 81
    &&& forall|i: int| 0 <= i < 81 ==> in_range(#[trigger] s[i])
}

/// Every cell is resolved.
pub open spec fn complete(s: Seq<u16>) -> bool {
    forall|i: int| 0 <= i < s.len() ==> is_single(#[trigger] s[i])
}

/// No two peers are resolved to the same digit.
pub open spec fn valid(s: Seq<u16>) -> bool {
    forall|i: int, p: int|
        #[trigger] is_peer(i, p) && is_single(s[i]) && is_single(s[p]) ==> s[i] != s[p]
}

/// The resolved mask for digit `d`.
pub open spec fn mask_of_digit(d: int) -> u16 {
    1u16 << ((d - 1) as u16)
}

/// A byte giving a digit, `'1'` through `'9'`.
pub open spec fn is_given_byte(c: u8) -> bool {
    49 <= c <= 57
}

/// The blank marker `'-'`.
pub open spec fn is_blank_byte(c: u8) -> bool {
    c == 45
}

/// A byte that stands for one cell of a puzzle; all other bytes are
/// formatting and are skipped.
pub open spec fn is_cell_byte(c: u8) -> bool {
    is_given_byte(c) || is_blank_byte(c)
}

/// The candidate set a cell byte denotes: a given digit's resolved mask, or
/// the full mask for a blank.
pub open spec fn cell_of_byte(c: u8) -> u16 {
    if is_given_byte(c) {
        mask_of_digit(c - 48)
    } else {
        FULL_MASK
    }
}

/// The cells a puzzle text denotes, in order: one per cell byte.
pub open spec fn parse_cells(s: Seq<u8>) -> Seq<u16>
    decreases s.len(),
{
    if s.len() == 0 {
        Seq::empty()
    } else {
        parse_cells(s.drop_last()) + (if is_cell_byte(s.last()) {
            seq![cell_of_byte(s.last())]
        } else {
            Seq::empty()
        })
    }
}

/// Extending the parsed prefix by one byte appends at most one cell.
pub proof fn lemma_parse_snoc(s: Seq<u8>, j: int)
    requires
        0 <= j < s.len(),
    ensures
        parse_cells(s.take(j + 1)) == parse_cells(s.take(j)) + (if is_cell_byte(s[j]) {
            seq![cell_of_byte(s[j])]
        } else {
            Seq::<u16>::empty()
        }),
{
    let t = s.take(j + 1);
    assert(t.drop_last() =~= s.take(j));
    assert(t.last() == s[j]);
}

/// A prefix of the text never denotes more cells than the whole text.
pub proof fn lemma_parse_take_len(s: Seq<u8>, i: int)
    requires
        0 <= i <= s.len(),
    ensures
        parse_cells(s.take(i)).len() <= parse_cells(s).len(),
    decreases s.len() - i,
{
    if i == s.len() {
        assert(s.take(i) =~= s);
    } else {
        lemma_parse_snoc(s, i);
        lemma_parse_take_len(s, i + 1);
    }
}

/// A board of 81 candidate sets.
pub struct Board {
    pub cells: Vec<u16>,
}

impl View for Board {
    type V = Seq<u16>;

    open spec fn view(&self) -> Seq<u16> {
        self.cells@
    }
}

impl Board {
    /// Well-formedness: see `wf_cells`.
    pub open spec fn wf(&self) -> bool {
        wf_cells(self@)
    }

    /// A board with no information: every digit possible in every cell.
    pub fn new() -> (b: Board)
        ensures
            b.wf(),
            forall|i: int| 0 <= i < 81 ==> b@[i] == FULL_MASK,
    {
        let mut cells: Vec<u16> = Vec::new();
        for i in 0..81usize
            invariant
                cells@.len() == i,
                forall|j: int| 0 <= j < i ==> cells@[j] == FULL_MASK,
        {
            cells.push(FULL_MASK);
        }
        Board { cells }
    }

    /// Force a cell to a single given digit; used while building a board
    /// from external input, not during solving.
    pub fn set_cell(&mut self, index: usize, digit: u8)
        requires
            old(self)@.len() == 81,
            index < 81,
            1 <= digit <= 9,
        ensures
            final(self)@ == old(self)@.update(index as int, mask_of_digit(digit as int)),
            is_single(final(self)@[index as int]),
            in_range(final(self)@[index as int]),
    {
        let mask: u16 = 1u16 << ((digit - 1) as u16);
        proof {
            lemma_shift_single(((digit - 1) as u16));
        }
        self.cells[index] = mask;
    }

    /// The board built from puzzle text: bytes `'1'` to `'9'` give a cell's
    /// digit, `'-'` leaves a cell blank, every other byte is formatting.
    /// The text must not describe more than the 81 cells; cells it does not
    /// reach stay blank.
    pub fn init(state: &str) -> (b: Board)
        requires
            parse_cells(state.spec_bytes()).len() <= 81,
        ensures
            b.wf(),
            forall|j: int|
                0 <= j < parse_cells(state.spec_bytes()).len() ==> b@[j] == parse_cells(
                    state.spec_bytes(),
                )[j],
            forall|j: int|
                parse_cells(state.spec_bytes()).len() <= j < 81 ==> b@[j] == FULL_MASK,
    {
        let ghost bs = state.spec_bytes();
        let bytes = state.as_bytes();
        let mut b = Board::new();
        let mut index: usize = 0;
        for i in 0..bytes.len()
            invariant
                bytes@ == bs,
                parse_cells(bs).len() <= 81,
                b@.len() == 81,
                b.wf(),
                index == parse_cells(bs.take(i as int)).len(),
                forall|j: int|
                    0 <= j < index ==> b@[j] == parse_cells(bs.take(i as int))[j],
                forall|j: int| index <= j < 81 ==> b@[j] == FULL_MASK,
        {
            let c = bytes[i];
            proof {
                lemma_parse_snoc(bs, i as int);
                lemma_parse_take_len(bs, i as int + 1);
            }
            if c == 45 {
                assert(index < 81);
                index += 1;
            } else if 49 <= c && c <= 57 {
                assert(index < 81);
                let mask: u16 = 1u16 << ((c - 49) as u16);
                proof {
                    lemma_shift_single((c - 49) as u16);
                    assert(mask == cell_of_byte(c));
                }
                b.cells[index] = mask;
                index += 1;
            } else {
                proof {
                    assert(parse_cells(bs.take(i as int + 1)) =~= parse_cells(
                        bs.take(i as int),
                    ));
                }
            }
        }
        proof {
            assert(bs.take(bytes@.len() as int) =~= bs);
        }
        b
    }

    /// The candidate set of the cell in box (`box_x`, `box_y`) at offset
    /// (`sub_x`, `sub_y`) within the box.
    pub fn cell_by_coords(&self, box_x: i32, box_y: i32, sub_x: i32, sub_y: i32) -> (v: u16)
        requires
            self@.len() == 81,
            0 <= box_x < 3,
            0 <= box_y < 3,
            0 <= sub_x < 3,
            0 <= sub_y < 3,
        ensures
            v == self@[cell_index(box_x as int, box_y as int, sub_x as int, sub_y as int)],
    {
        self.cells[Board::coords_to_cell_index(box_x, box_y, sub_x, sub_y)]
    }

    /// The flat index of the cell in box (`box_x`, `box_y`) at offset
    /// (`sub_x`, `sub_y`) within the box.
    fn coords_to_cell_index(box_x: i32, box_y: i32, sub_x: i32, sub_y: i32) -> (index: usize)
        requires
            0 <= box_x < 3,
            0 <= box_y < 3,
            0 <= sub_x < 3,
            0 <= sub_y < 3,
        ensures
            index == cell_index(box_x as int, box_y as int, sub_x as int, sub_y as int),
            index < 81,
    {
        (box_y * 3 * 3 * 3 + box_x * 3 + sub_y * 3 * 3 + sub_x) as usize
    }

    /// Whether the cell at `index` is resolved to a single digit.
    pub fn is_cell_known(&self, index: usize) -> (r: bool)
        requires
            index < self@.len(),
        ensures
            r == is_single(self@[index as int]),
    {
        Board::is_cell_known_by_value(self.cells[index])
    }

    /// Whether a candidate set has exactly one bit.
    pub fn is_cell_known_by_value(val: u16) -> (r: bool)
        ensures
            r == is_single(val),
    {
        proof {
            lemma_single_trick(val);
        }
        val != 0 && val & (val - 1) == 0
    }

    /// An independent copy with the same candidate sets, so a speculative
    /// branch never aliases its parent's state.
    pub fn duplicate(&self) -> (r: Board)
        ensures
            r@ == self@,
    {
        let mut cells: Vec<u16> = Vec::new();
        for i in 0..self.cells.len()
            invariant
                i <= self@.len(),
                cells@.len() == i,
                forall|j: int| 0 <= j < i ==> cells@[j] == self@[j],
        {
            cells.push(self.cells[i]);
        }
        proof {
            assert(cells@ =~= self@);
        }
        Board { cells }
    }

    /// The digit a resolved candidate set stands for, or `None` for an
    /// unresolved cell: the read-only view that a display renders as a
    /// digit or a blank.
    pub fn resolved_digit(val: u16) -> (d: Option<u8>)
        requires
            in_range(val),
        ensures
            match d {
                Some(digit) => 1 <= digit <= 9 && val == mask_of_digit(digit as int) && is_single(
                    val,
                ),
                None => !is_single(val),
            },
    {
        let mut digit: u8 = 1;
        while digit <= 9
            invariant
                1 <= digit <= 10,
                forall|dd: int| 1 <= dd < digit ==> val != mask_of_digit(dd),
            decreases 10 - digit,
        {
            if val == 1u16 << ((digit - 1) as u16) {
                proof {
                    lemma_shift_single((digit - 1) as u16);
                }
                return Some(digit);
            }
            digit += 1;
        }
        proof {
            if is_single(val) {
                lemma_single_trick(val);
                assert(val == 1 || val == 2 || val == 4 || val == 8 || val == 16 || val == 32
                    || val == 64 || val == 128 || val == 256) by (bit_vector)
                    requires
                        val != 0,
                        val & ((val - 1) as u16) == 0,
                        val <= 0x1ff,
                ;
                assert((1u16 << 0) == 1 && (1u16 << 1) == 2 && (1u16 << 2) == 4 && (1u16 << 3)
                    == 8 && (1u16 << 4) == 16 && (1u16 << 5) == 32 && (1u16 << 6) == 64 && (1u16
                    << 7) == 128 && (1u16 << 8) == 256) by (bit_vector);
                assert(val != mask_of_digit(1) && val != mask_of_digit(2) && val != mask_of_digit(
                    3,
                ) && val != mask_of_digit(4) && val != mask_of_digit(5) && val != mask_of_digit(6)
                    && val != mask_of_digit(7) && val != mask_of_digit(8) && val != mask_of_digit(
                    9,
                ));
                assert(false);
            }
        }
        None
    }

    /// Whether every cell is resolved.
    pub fn is_full(&self) -> (r: bool)
        ensures
            r == complete(self@),
    {
        for i in 0..self.cells.len()
            invariant
                forall|j: int| 0 <= j < i ==> is_single(#[trigger] self@[j]),
        {
            if !Board::is_cell_known_by_value(self.cells[i]) {
                return false;
            }
        }
        true
    }
}

/// The flat index of the cell in box (`bx`, `by`) at offset (`sx`, `sy`).
pub open spec fn cell_index(bx: int, by: int, sx: int, sy: int) -> int {
    by * 27 + bx * 3 + sy * 9 + sx
}

} // verus!
