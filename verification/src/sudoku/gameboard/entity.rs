//! The cells of the board and the rules by which they are set.

use crate::sudoku::position::Position;
use crate::text::{
    all_digits, char_is_digit, char_is_whitespace, chars_of, decimal_digits, decimal_of,
    digit_value, extend_chars, is_whitespace, string_of,
};
use vstd::prelude::*;

verus! {

/// The number of rows, and of columns.
pub const GAME_SIZE: usize = 9;

/// One cell of the board.
#[derive(Clone, Copy, Debug, PartialEq, Eq)]
pub struct Cell {
    /// The digit in the cell; zero for none.
    pub value: u8,
    /// Whether the digit came with the puzzle.
    pub loaded: bool,
    /// Whether the digit broke no rule when it was set.
    pub valid: bool,
}

impl Default for Cell {
    fn default() -> (c: Self)
        ensures
            c == (Cell { value: 0, loaded: false, valid: true }),
    {
        Cell { value: 0, loaded: false, valid: true }
    }
}

impl Cell {
    /// Whether the cell holds no digit.
    pub fn is_empty(&self) -> (b: bool)
        ensures
            b == (self.value == 0),
    {
        self.value == 0
    }
}

/// The board: nine rows of nine cells.
#[derive(Debug, PartialEq, Eq, Clone, Copy)]
pub struct SudokuBoard {
    /// The cells, by row and by column.
    pub cells: [[Cell; 9]; 9],
    /// Whether every cell holds a digit that broke no rule.
    pub completed: bool,
}

impl Default for SudokuBoard {
    fn default() -> (b: Self)
        ensures
            b.is_blank(),
    {
        SudokuBoard::new()
    }
}

impl SudokuBoard {
    /// The cell in row `y` and column `x`.
    pub open spec fn at(self, y: int, x: int) -> Cell {
        self.cells[y][x]
    }

    /// Whether the board is as `new` makes it.
    pub open spec fn is_blank(self) -> bool {
        &&& !self.completed
        &&& forall|y: int, x: int|
            0 <= y < 9 && 0 <= x < 9 ==> #[trigger] self.at(y, x) == (Cell {
                value: 0,
                loaded: false,
                valid: true,
            })
    }

    /// Whether a digit `val` at `pos` meets the same digit in another cell
    /// of its column, of its row, or of its box of three by three cells.
    pub open spec fn conflict(self, pos: Position, val: u8) -> bool {
        exists|y: int, x: int|
            0 <= y < 9 && 0 <= x < 9 && !(y == pos.y && x == pos.x) && (x == pos.x || y == pos.y || (
            y / 3 == pos.y as int / 3 && x / 3 == pos.x as int / 3)) && (#[trigger] self.at(
                y,
                x,
            )).value == val
    }

    /// Whether every cell holds a digit and is marked valid.
    pub open spec fn complete(self) -> bool {
        forall|y: int, x: int|
            0 <= y < 9 && 0 <= x < 9 ==> (#[trigger] self.at(y, x)).valid && self.at(y, x).value
                != 0
    }

    /// Whether `after` is the board after `val` has been set at `pos`.
    ///
    /// A cell that came with the puzzle stays as it is. Any other cell
    /// takes the digit, and is marked valid exactly if there is no
    /// conflict. All other cells stay as they are. The board is completed
    /// exactly if it is complete then.
    pub open spec fn set_gives(self, pos: Position, val: u8, after: SudokuBoard) -> bool {
        &&& forall|y: int, x: int|
            0 <= y < 9 && 0 <= x < 9 ==> #[trigger] after.at(y, x) == if y == pos.y && x == pos.x
                && !self.at(y, x).loaded {
                Cell { value: val, loaded: false, valid: !self.conflict(pos, val) }
            } else {
                self.at(y, x)
            }
        &&& after.completed == after.complete()
    }

    /// The empty board.
    pub fn new() -> (b: Self)
        ensures
            b.is_blank(),
    {
        let blank = Cell { value: 0, loaded: false, valid: true };
        SudokuBoard { cells: [[blank;9];9], completed: false }
    }

    /// The cell at `pos`.
    pub fn get(&self, pos: Position) -> (c: &Cell)
        requires
            pos.on_board(),
        ensures
            *c == self.at(pos.y as int, pos.x as int),
    {
        &self.cells[pos.y][pos.x]
    }

    /// The digit at `pos` as a character, if there is one.
    pub fn char(&self, pos: Position) -> (r: Option<char>)
        requires
            pos.on_board(),
        ensures
            r == digit_char_of(self.at(pos.y as int, pos.x as int).value),
    {
        let v: u8 = self.cells[pos.y][pos.x].value;
        if v == 1 {
            Some('1')
        } else if v == 2 {
            Some('2')
        } else if v == 3 {
            Some('3')
        } else if v == 4 {
            Some('4')
        } else if v == 5 {
            Some('5')
        } else if v == 6 {
            Some('6')
        } else if v == 7 {
            Some('7')
        } else if v == 8 {
            Some('8')
        } else if v == 9 {
            Some('9')
        } else {
            None
        }
    }

    /// Whether every cell holds a digit and is marked valid.
    pub fn check_completion(&self) -> (b: bool)
        ensures
            b == self.complete(),
    {
        let mut y: usize = 0;
        while y < 9
            invariant
                y <= 9,
                forall|r: int, c: int|
                    0 <= r < y && 0 <= c < 9 ==> (#[trigger] self.at(r, c)).valid && self.at(
                        r,
                        c,
                    ).value != 0,
            decreases 9 - y,
        {
            let mut x: usize = 0;
            while x < 9
                invariant
                    y < 9,
                    x <= 9,
                    forall|r: int, c: int|
                        0 <= r < y && 0 <= c < 9 ==> (#[trigger] self.at(r, c)).valid && self.at(
                            r,
                            c,
                        ).value != 0,
                    forall|c: int|
                        0 <= c < x ==> (#[trigger] self.at(y as int, c)).valid && self.at(
                            y as int,
                            c,
                        ).value != 0,
                decreases 9 - x,
            {
                let cell = self.cells[y][x];
                if !cell.valid || cell.value == 0 {
                    assert(!((self.at(y as int, x as int)).valid && self.at(
                        y as int,
                        x as int,
                    ).value != 0));
                    return false;
                }
                x += 1;
            }
            y += 1;
        }
        true
    }

    /// Whether `val` at `pos` meets the same digit in another cell of its
    /// column, its row or its box.
    fn conflicts(&self, pos: Position, val: u8) -> (b: bool)
        requires
            pos.on_board(),
        ensures
            b == self.conflict(pos, val),
    {
        let mut y: usize = 0;
        while y < 9
            invariant
                y <= 9,
                pos.on_board(),
                forall|r: int, c: int|
                    0 <= r < y && 0 <= c < 9 && !(r == pos.y && c == pos.x) && (c == pos.x || r
                        == pos.y || (r / 3 == pos.y as int / 3 && c / 3 == pos.x as int / 3))
                        ==> (#[trigger] self.at(r, c)).value != val,
            decreases 9 - y,
        {
            let mut x: usize = 0;
            while x < 9
                invariant
                    y < 9,
                    x <= 9,
                    pos.on_board(),
                    forall|r: int, c: int|
                        0 <= r < y && 0 <= c < 9 && !(r == pos.y && c == pos.x) && (c == pos.x || r
                            == pos.y || (r / 3 == pos.y as int / 3 && c / 3 == pos.x as int / 3))
                            ==> (#[trigger] self.at(r, c)).value != val,
                    forall|c: int|
                        0 <= c < x && !(y == pos.y && c == pos.x) && (c == pos.x || y == pos.y || (y
                            as int / 3 == pos.y as int / 3 && c / 3 == pos.x as int / 3))
                            ==> (#[trigger] self.at(y as int, c)).value != val,
                decreases 9 - x,
            {
                let related = x == pos.x || y == pos.y || (y / 3 == pos.y / 3 && x / 3 == pos.x / 3);
                if !(y == pos.y && x == pos.x) && related && self.cells[y][x].value == val {
                    assert(self.at(y as int, x as int).value == val);
                    return true;
                }
                x += 1;
            }
            y += 1;
        }
        false
    }

    /// Marks the cell at `pos` as valid exactly if `val` would meet no
    /// conflict there.
    fn validate(&mut self, pos: Position, val: u8)
        requires
            pos.on_board(),
        ensures
            final(self).completed == old(self).completed,
            forall|y: int, x: int|
                0 <= y < 9 && 0 <= x < 9 ==> #[trigger] final(self).at(y, x) == if y == pos.y && x
                    == pos.x {
                    Cell { valid: !old(self).conflict(pos, val), ..old(self).at(y, x) }
                } else {
                    old(self).at(y, x)
                },
    {
        let ok = !self.conflicts(pos, val);
        self.cells[pos.y][pos.x].valid = ok;
    }

    /// Sets the digit `val` at `pos`, zero for none.
    ///
    /// A cell that came with the puzzle stays as it is. Any other cell takes
    /// the digit, and is marked valid exactly if the digit is in no other
    /// cell of its column, its row and its box. The board is completed
    /// exactly if every cell holds a digit and is marked valid then.
    pub fn set(&mut self, pos: Position, val: u8)
        requires
            pos.on_board(),
        ensures
            old(self).set_gives(pos, val, *final(self)),
    {
        if !self.cells[pos.y][pos.x].loaded {
            self.validate(pos, val);
            let ghost marked = *self;
            self.cells[pos.y][pos.x].value = val;
            proof {
                assert forall|y: int, x: int| 0 <= y < 9 && 0 <= x < 9 implies #[trigger] self.at(
                    y,
                    x,
                ) == if y == pos.y && x == pos.x {
                    Cell { value: val, loaded: false, valid: !old(self).conflict(pos, val) }
                } else {
                    old(self).at(y, x)
                } by {
                    assert(marked.at(y, x) == if y == pos.y && x == pos.x {
                        Cell { valid: !old(self).conflict(pos, val), ..old(self).at(y, x) }
                    } else {
                        old(self).at(y, x)
                    });
                }
            }
        }
        let ghost written = *self;
        self.completed = self.check_completion();
        proof {
            assert forall|y: int, x: int| 0 <= y < 9 && 0 <= x < 9 implies #[trigger] self.at(y, x)
                == if y == pos.y && x == pos.x && !old(self).at(y, x).loaded {
                Cell { value: val, loaded: false, valid: !old(self).conflict(pos, val) }
            } else {
                old(self).at(y, x)
            } by {
                assert(self.at(y, x) == written.at(y, x));
            }
            assert(self.complete() == written.complete()) by {
                assert forall|y: int, x: int| 0 <= y < 9 && 0 <= x < 9 implies #[trigger] self.at(
                    y,
                    x,
                ) == written.at(y, x) by {}
                if written.complete() {
                    assert forall|y: int, x: int| 0 <= y < 9 && 0 <= x < 9 implies (
                    #[trigger] self.at(y, x)).valid && self.at(y, x).value != 0 by {
                        assert(written.at(y, x).valid);
                    }
                }
                if self.complete() {
                    assert forall|y: int, x: int| 0 <= y < 9 && 0 <= x < 9 implies (
                    #[trigger] written.at(y, x)).valid && written.at(y, x).value != 0 by {
                        assert(self.at(y, x).valid);
                    }
                }
            }
        }
    }

    /// The board with the given digits, each of which counts as having come
    /// with the puzzle, and as valid, unless it is zero.
    pub fn from_cells(cells: [[u8; 9]; 9]) -> (b: Self)
        ensures
            !b.completed,
            forall|y: int, x: int|
                0 <= y < 9 && 0 <= x < 9 ==> #[trigger] b.at(y, x) == (Cell {
                    value: cells[y][x],
                    loaded: cells[y][x] != 0,
                    valid: cells[y][x] != 0,
                }),
    {
        let mut ret = SudokuBoard::new();
        let mut y: usize = 0;
        while y < 9
            invariant
                y <= 9,
                !ret.completed,
                forall|r: int, c: int|
                    0 <= r < y && 0 <= c < 9 ==> #[trigger] ret.at(r, c) == (Cell {
                        value: cells[r][c],
                        loaded: cells[r][c] != 0,
                        valid: cells[r][c] != 0,
                    }),
            decreases 9 - y,
        {
            let mut x: usize = 0;
            while x < 9
                invariant
                    y < 9,
                    x <= 9,
                    !ret.completed,
                    forall|r: int, c: int|
                        0 <= r < y && 0 <= c < 9 ==> #[trigger] ret.at(r, c) == (Cell {
                            value: cells[r][c],
                            loaded: cells[r][c] != 0,
                            valid: cells[r][c] != 0,
                        }),
                    forall|c: int|
                        0 <= c < x ==> #[trigger] ret.at(y as int, c) == (Cell {
                            value: cells[y as int][c],
                            loaded: cells[y as int][c] != 0,
                            valid: cells[y as int][c] != 0,
                        }),
                decreases 9 - x,
            {
                let v: u8 = cells[y][x];
                let ghost before = ret;
                ret.cells[y][x] = Cell { value: v, loaded: v != 0, valid: v != 0 };
                proof {
                    assert forall|r: int, c: int| 0 <= r < 9 && 0 <= c < 9 implies #[trigger] ret.at(
                        r,
                        c,
                    ) == if r == y && c == x {
                        Cell { value: v, loaded: v != 0, valid: v != 0 }
                    } else {
                        before.at(r, c)
                    } by {}
                }
                x += 1;
            }
            y += 1;
        }
        ret
    }
}

/// The character for a digit from one to nine.
pub open spec fn digit_char_of(v: u8) -> Option<char> {
    if 1 <= v <= 9 {
        Some(crate::text::digit_char(v as nat))
    } else {
        None
    }
}

/// The length of a text without the white space at its end.
pub open spec fn trimmed_len(s: Seq<char>) -> nat
    decreases s.len(),
{
    if s.len() == 0 {
        0
    } else if is_whitespace(s.last()) {
        trimmed_len(s.drop_last())
    } else {
        s.len()
    }
}

/// A text without the white space at its end.
pub open spec fn trim_end_spec(s: Seq<char>) -> Seq<char> {
    s.take(trimmed_len(s) as int)
}

/// A text is no shorter without the white space at its end.
pub proof fn lemma_trimmed_len(s: Seq<char>)
    ensures
        trimmed_len(s) <= s.len(),
    decreases s.len(),
{
    if s.len() > 0 && is_whitespace(s.last()) {
        lemma_trimmed_len(s.drop_last());
    }
}

/// The cell that a digit of a puzzle makes.
pub open spec fn puzzle_cell(d: char) -> Cell {
    Cell {
        value: digit_value(d) as u8,
        loaded: digit_value(d) != 0,
        valid: digit_value(d) != 0,
    }
}

/// The digits of the cells of row `y` from column `x` on, one number
/// behind the other.
pub open spec fn row_digits(board: SudokuBoard, y: int, x: int) -> Seq<char>
    decreases 9 - x,
{
    if x < 0 || x >= 9 {
        Seq::empty()
    } else {
        decimal_digits(board.at(y, x).value as nat) + row_digits(board, y, x + 1)
    }
}

/// The rows from the `y`-th on, each between square brackets and followed
/// by a comma and a line feed.
pub open spec fn rows_text(board: SudokuBoard, y: int) -> Seq<char>
    decreases 9 - y,
{
    if y < 0 || y >= 9 {
        Seq::empty()
    } else {
        seq!['['] + row_digits(board, y, 0) + seq![']', ',', '\n'] + rows_text(board, y + 1)
    }
}

/// The board as text: the rows between two lines with a square bracket.
pub open spec fn board_text(board: SudokuBoard) -> Seq<char> {
    seq!['[', '\n'] + rows_text(board, 0) + seq![']', '\n']
}

impl SudokuBoard {
    /// Reads a puzzle from the text of an SDM file: up to 81 digits, the
    /// cells row by row, zero for an empty cell; white space at the end
    /// does not count. The cells for which there is no digit stay empty.
    ///
    /// `None` exactly when there are more than 81 characters or one of them
    /// is no digit.
    pub fn load_sdm(data: &str) -> (r: Option<SudokuBoard>)
        ensures
            r is Some <==> trim_end_spec(data@).len() <= 81 && all_digits(trim_end_spec(data@)),
            r is Some ==> !r->0.completed && forall|k: int|
                0 <= k < 81 ==> #[trigger] r->0.at(k / 9, k % 9) == if k < trim_end_spec(
                    data@,
                ).len() {
                    puzzle_cell(trim_end_spec(data@)[k])
                } else {
                    Cell { value: 0, loaded: false, valid: true }
                },
    {
        let v = chars_of(data);
        let mut n: usize = v.len();
        assert(v@.take(v.len() as int) =~= v@);
        while n > 0 && char_is_whitespace(v[n - 1])
            invariant
                n <= v.len(),
                trimmed_len(v@) == trimmed_len(v@.take(n as int)),
            decreases n,
        {
            proof {
                assert(v@.take(n as int).drop_last() =~= v@.take(n - 1));
            }
            n -= 1;
        }
        proof {
            assert(v@.take(v.len() as int) =~= v@);
            lemma_trimmed_len(v@);
            if n > 0 {
                assert(v@.take(n as int).last() == v@[n - 1]);
            }
        }
        let ghost text = trim_end_spec(v@);
        assert(text =~= v@.take(n as int));
        if n > 81 {
            return None;
        }
        let mut board = SudokuBoard::new();
        let mut k: usize = 0;
        while k < n
            invariant
                k <= n <= 81,
                n <= v.len(),
                text == v@.take(n as int),
                text == trim_end_spec(data@),
                !board.completed,
                forall|j: int| 0 <= j < k ==> crate::text::is_digit(#[trigger] text[j]),
                forall|j: int|
                    0 <= j < 81 ==> #[trigger] board.at(j / 9, j % 9) == if j < k {
                        puzzle_cell(text[j])
                    } else {
                        Cell { value: 0, loaded: false, valid: true }
                    },
            decreases n - k,
        {
            let c = v[k];
            if !char_is_digit(c) {
                assert(!crate::text::is_digit(text[k as int]));
                assert(!all_digits(text));
                return None;
            }
            let value: u8 = (c as u32 - 48) as u8;
            let ghost before = board;
            board.cells[k / 9][k % 9] = Cell { value, loaded: value != 0, valid: value != 0 };
            proof {
                assert forall|j: int| 0 <= j < 81 implies #[trigger] board.at(j / 9, j % 9) == if j
                    < k + 1 {
                    puzzle_cell(text[j])
                } else {
                    Cell { value: 0, loaded: false, valid: true }
                } by {
                    if j != k {
                        assert(!(j / 9 == k / 9 && j % 9 == k % 9));
                        assert(board.at(j / 9, j % 9) == before.at(j / 9, j % 9));
                    }
                }
            }
            k += 1;
        }
        Some(board)
    }

    /// The board as text.
    pub fn to_string(&self) -> (s: String)
        ensures
            s@ == board_text(*self),
    {
        let mut out: Vec<char> = Vec::new();
        out.push('[');
        out.push('\n');
        let mut y: usize = 0;
        proof {
            assert(out@ =~= seq!['[', '\n']);
        }
        while y < 9
            invariant
                y <= 9,
                seq!['[', '\n'] + rows_text(*self, 0) == out@ + rows_text(*self, y as int),
            decreases 9 - y,
        {
            let ghost before = out@;
            out.push('[');
            let mut x: usize = 0;
            proof {
                assert(out@ + row_digits(*self, y as int, 0) =~= before + (seq!['['] + row_digits(
                    *self,
                    y as int,
                    0,
                )));
            }
            while x < 9
                invariant
                    y < 9,
                    x <= 9,
                    before + (seq!['['] + row_digits(*self, y as int, 0)) == out@ + row_digits(
                        *self,
                        y as int,
                        x as int,
                    ),
                decreases 9 - x,
            {
                let digits = decimal_of(self.cells[y][x].value as usize);
                let ghost so_far = out@;
                extend_chars(&mut out, &digits);
                proof {
                    assert(so_far + (digits@ + row_digits(*self, y as int, x + 1)) =~= out@
                        + row_digits(*self, y as int, x + 1));
                }
                x += 1;
            }
            let ghost row_done = out@;
            out.push(']');
            out.push(',');
            out.push('\n');
            proof {
                assert(row_done =~= before + (seq!['['] + row_digits(*self, y as int, 0)));
                assert(out@ =~= before + (seq!['['] + row_digits(*self, y as int, 0) + seq![
                    ']',
                    ',',
                    '\n',
                ]));
                assert(before + (seq!['['] + row_digits(*self, y as int, 0) + seq![']', ',', '\n']
                    + rows_text(*self, y + 1)) =~= out@ + rows_text(*self, y + 1));
            }
            y += 1;
        }
        let ghost body = out@;
        out.push(']');
        out.push('\n');
        proof {
            assert(body =~= seq!['[', '\n'] + rows_text(*self, 0));
            assert(out@ =~= body + seq![']', '\n']);
        }
        string_of(&out)
    }
}

} // verus!
