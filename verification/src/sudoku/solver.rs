//! Solving a board by trying digits and going back.

use crate::sudoku::gameboard::entity::{Cell, SudokuBoard};
use crate::sudoku::position::Position;
use vstd::prelude::*;

verus! {

/// Whether no cell before the one in row `y` and column `x`, row by row,
/// is empty.
pub open spec fn none_empty_before(board: SudokuBoard, y: int, x: int) -> bool {
    forall|r: int, c: int|
        0 <= r < 9 && 0 <= c < 9 && (r < y || (r == y && c < x)) ==> (#[trigger] board.at(
            r,
            c,
        )).value != 0
}

/// The first empty cell, row by row, if there is one.
pub fn find_empty(board: &SudokuBoard) -> (r: Option<Position>)
    ensures
        r is None ==> none_empty_before(*board, 9, 0),
        r is Some ==> r->0.on_board() && board.at(r->0.y as int, r->0.x as int).value == 0
            && none_empty_before(*board, r->0.y as int, r->0.x as int),
{
    let mut y: usize = 0;
    while y < 9
        invariant
            y <= 9,
            none_empty_before(*board, y as int, 0),
        decreases 9 - y,
    {
        let mut x: usize = 0;
        while x < 9
            invariant
                y < 9,
                x <= 9,
                none_empty_before(*board, y as int, x as int),
            decreases 9 - x,
        {
            if board.cells[y][x].is_empty() {
                return Some(Position::new(x, y));
            }
            x += 1;
        }
        y += 1;
    }
    None
}

/// The cell with the number `k`, counted row by row from zero.
pub open spec fn cell_number(board: SudokuBoard, k: int) -> Cell {
    board.at(k / 9, k % 9)
}

/// The number of the first empty cell from the `k`-th on, or 81 where
/// there is none.
pub open spec fn first_empty_from(board: SudokuBoard, k: int) -> int
    decreases 81 - k,
{
    if k < 0 || k >= 81 {
        81
    } else if cell_number(board, k).value == 0 {
        k
    } else {
        first_empty_from(board, k + 1)
    }
}

/// The number of the first empty cell, or 81 where there is none.
pub open spec fn first_empty(board: SudokuBoard) -> int {
    first_empty_from(board, 0)
}

proof fn lemma_first_empty_from(board: SudokuBoard, k: int, y: int, x: int)
    requires
        0 <= k <= 9 * y + x <= 81,
        0 <= x < 9 || (x == 0 && y == 9),
        none_empty_before(board, y, x),
    ensures
        first_empty_from(board, k) == first_empty_from(board, 9 * y + x),
        forall|j: int| 0 <= j < 81 ==> first_empty_from(board, j) >= j,
    decreases 9 * y + x - k,
{
    assert forall|j: int| 0 <= j < 81 implies first_empty_from(board, j) >= j by {
        lemma_first_empty_lower(board, j);
    }
    if k < 9 * y + x {
        let r = k / 9;
        let c = k % 9;
        assert(board.at(r, c).value != 0);
        lemma_first_empty_from(board, k + 1, y, x);
    }
}

proof fn lemma_first_empty_lower(board: SudokuBoard, j: int)
    requires
        0 <= j <= 81,
    ensures
        j <= first_empty_from(board, j) <= 81,
    decreases 81 - j,
{
    if j < 81 && cell_number(board, j).value != 0 {
        lemma_first_empty_lower(board, j + 1);
    }
}

/// No cell from the `k`-th up to the first empty one is empty.
proof fn lemma_first_empty_upper(board: SudokuBoard, k: int, j: int)
    requires
        0 <= k <= j < first_empty_from(board, k),
    ensures
        j < 81,
        cell_number(board, j).value != 0,
    decreases 81 - k,
{
    lemma_first_empty_lower(board, k);
    if k < j {
        lemma_first_empty_upper(board, k + 1, j);
    }
}

/// A board without an empty cell is its own filling.
proof fn lemma_full_board(board: SudokuBoard)
    requires
        first_empty(board) == 81,
    ensures
        fills(board, board),
        forall|y: int, x: int| 0 <= y < 9 && 0 <= x < 9 ==> (#[trigger] board.at(y, x)).value != 0,
{
    assert forall|y: int, x: int| 0 <= y < 9 && 0 <= x < 9 implies (#[trigger] board.at(
        y,
        x,
    )).value != 0 by {
        lemma_first_empty_upper(board, 0, 9 * y + x);
        assert((9 * y + x) / 9 == y && (9 * y + x) % 9 == x);
    }
}

/// Whether no empty cell is marked as having come with the puzzle.
pub open spec fn playable(board: SudokuBoard) -> bool {
    forall|y: int, x: int|
        0 <= y < 9 && 0 <= x < 9 && (#[trigger] board.at(y, x)).value == 0 ==> !board.at(
            y,
            x,
        ).loaded
}

/// Whether no empty cell is marked as having come with the puzzle.
pub fn is_playable(board: &SudokuBoard) -> (b: bool)
    ensures
        b == playable(*board),
{
    let mut y: usize = 0;
    while y < 9
        invariant
            y <= 9,
            forall|r: int, c: int|
                0 <= r < y && 0 <= c < 9 && (#[trigger] board.at(r, c)).value == 0 ==> !board.at(
                    r,
                    c,
                ).loaded,
        decreases 9 - y,
    {
        let mut x: usize = 0;
        while x < 9
            invariant
                y < 9,
                x <= 9,
                forall|r: int, c: int|
                    0 <= r < y && 0 <= c < 9 && (#[trigger] board.at(r, c)).value == 0
                        ==> !board.at(r, c).loaded,
                forall|c: int|
                    0 <= c < x && (#[trigger] board.at(y as int, c)).value == 0 ==> !board.at(
                        y as int,
                        c,
                    ).loaded,
            decreases 9 - x,
        {
            let cell = board.cells[y][x];
            if cell.value == 0 && cell.loaded {
                assert(board.at(y as int, x as int).value == 0 && board.at(
                    y as int,
                    x as int,
                ).loaded);
                return false;
            }
            x += 1;
        }
        y += 1;
    }
    true
}

/// Whether `full` is `board` with a digit in each of its empty cells, such
/// that none of these digits is in another cell of its column, its row or
/// its box.
pub open spec fn fills(board: SudokuBoard, full: SudokuBoard) -> bool {
    forall|y: int, x: int|
        0 <= y < 9 && 0 <= x < 9 ==> if (#[trigger] board.at(y, x)).value != 0 {
            full.at(y, x).value == board.at(y, x).value
        } else {
            1 <= full.at(y, x).value <= 9 && !full.conflict(
                Position { x: x as usize, y: y as usize },
                full.at(y, x).value,
            )
        }
}

/// Whether the empty cells can be filled by the rules.
pub open spec fn solvable(board: SudokuBoard) -> bool {
    exists|full: SudokuBoard| fills(board, full)
}

/// Whether `now` is `then` but for the marks of validity of its empty
/// cells.
pub open spec fn same_but_marks(then: SudokuBoard, now: SudokuBoard) -> bool {
    forall|y: int, x: int|
        0 <= y < 9 && 0 <= x < 9 ==> if (#[trigger] then.at(y, x)).value != 0 {
            now.at(y, x) == then.at(y, x)
        } else {
            now.at(y, x).value == 0 && !now.at(y, x).loaded
        }
}

/// Whether `full` is `board` with its empty cells filled, each marked as
/// valid and as not having come with the puzzle.
pub open spec fn filled_in(board: SudokuBoard, full: SudokuBoard) -> bool {
    forall|y: int, x: int|
        0 <= y < 9 && 0 <= x < 9 ==> if (#[trigger] board.at(y, x)).value != 0 {
            full.at(y, x) == board.at(y, x)
        } else {
            full.at(y, x).valid && !full.at(y, x).loaded && full.at(y, x).value != 0
        }
}

/// Whether the digits of `a`, read row by row, come before those of `b` or
/// are the same: where the two differ first, `a` has the lower digit.
pub open spec fn digits_before(a: SudokuBoard, b: SudokuBoard) -> bool {
    forall|k: int|
        0 <= k < 81 && (forall|j: int|
            0 <= j < k ==> cell_number(a, j).value == (#[trigger] cell_number(b, j)).value)
            ==> (#[trigger] cell_number(a, k)).value <= cell_number(b, k).value
}

/// A digit that meets no conflict on a board meets none on a filling of the
/// board with that digit in its place.
proof fn lemma_no_conflict_when_filled(
    board: SudokuBoard,
    tried: SudokuBoard,
    full: SudokuBoard,
    pos: Position,
    v: u8,
)
    requires
        pos.on_board(),
        1 <= v <= 9,
        board.at(pos.y as int, pos.x as int).value == 0,
        !board.conflict(pos, v),
        forall|y: int, x: int|
            0 <= y < 9 && 0 <= x < 9 && !(y == pos.y && x == pos.x) ==> (#[trigger] tried.at(
                y,
                x,
            )).value == board.at(y, x).value,
        tried.at(pos.y as int, pos.x as int).value == v,
        fills(tried, full),
    ensures
        !full.conflict(pos, v),
        fills(board, full),
{
    if full.conflict(pos, v) {
        let (y, x) = choose|y: int, x: int|
            0 <= y < 9 && 0 <= x < 9 && !(y == pos.y && x == pos.x) && (x == pos.x || y == pos.y || (
            y / 3 == pos.y as int / 3 && x / 3 == pos.x as int / 3)) && (#[trigger] full.at(
                y,
                x,
            )).value == v;
        assert(tried.at(y, x).value == board.at(y, x).value);
        if board.at(y, x).value != 0 {
            assert(board.at(y, x).value == v);
            assert(board.conflict(pos, v));
        } else {
            // the digit at (y, x) was filled in, and meets the one at pos
            let q = Position { x: x as usize, y: y as usize };
            assert(full.at(pos.y as int, pos.x as int).value == v) by {
                assert(tried.at(pos.y as int, pos.x as int).value != 0);
            }
            assert(full.conflict(q, v)) by {
                assert(full.at(pos.y as int, pos.x as int).value == v);
            }
            assert(tried.at(y, x).value == 0);
            assert(false);
        }
    }
    assert forall|y: int, x: int| 0 <= y < 9 && 0 <= x < 9 implies if (#[trigger] board.at(
        y,
        x,
    )).value != 0 {
        full.at(y, x).value == board.at(y, x).value
    } else {
        1 <= full.at(y, x).value <= 9 && !full.conflict(
            Position { x: x as usize, y: y as usize },
            full.at(y, x).value,
        )
    } by {
        if y == pos.y && x == pos.x {
            assert(tried.at(y, x).value == v);
            assert(full.at(y, x).value == v);
            assert(Position { x: x as usize, y: y as usize } == pos);
        } else {
            assert(tried.at(y, x).value == board.at(y, x).value);
            if tried.at(y, x).value != 0 {
                assert(full.at(y, x).value == tried.at(y, x).value);
            } else {
                assert(1 <= full.at(y, x).value <= 9 && !full.conflict(
                    Position { x: x as usize, y: y as usize },
                    full.at(y, x).value,
                ));
            }
        }
    }
}

/// A filling of a board is a filling of the board with one of its digits
/// put in place.
proof fn lemma_fills_when_tried(board: SudokuBoard, tried: SudokuBoard, full: SudokuBoard, pos: Position)
    requires
        pos.on_board(),
        fills(board, full),
        forall|y: int, x: int|
            0 <= y < 9 && 0 <= x < 9 && !(y == pos.y && x == pos.x) ==> (#[trigger] tried.at(
                y,
                x,
            )).value == board.at(y, x).value,
        tried.at(pos.y as int, pos.x as int).value == full.at(pos.y as int, pos.x as int).value,
    ensures
        fills(tried, full),
{
    assert forall|y: int, x: int| 0 <= y < 9 && 0 <= x < 9 implies if (#[trigger] tried.at(
        y,
        x,
    )).value != 0 {
        full.at(y, x).value == tried.at(y, x).value
    } else {
        1 <= full.at(y, x).value <= 9 && !full.conflict(
            Position { x: x as usize, y: y as usize },
            full.at(y, x).value,
        )
    } by {
        let here = board.at(y, x);
        if !(y == pos.y && x == pos.x) {
            assert(tried.at(y, x).value == here.value);
        }
        if here.value != 0 {
            assert(full.at(y, x).value == here.value);
        } else {
            assert(1 <= full.at(y, x).value <= 9 && !full.conflict(
                Position { x: x as usize, y: y as usize },
                full.at(y, x).value,
            ));
        }
    }
}

/// A digit that meets a conflict on a board is in no filling of the board.
proof fn lemma_conflict_stays(board: SudokuBoard, full: SudokuBoard, pos: Position, v: u8)
    requires
        pos.on_board(),
        v != 0,
        board.at(pos.y as int, pos.x as int).value == 0,
        board.conflict(pos, v),
        fills(board, full),
    ensures
        full.at(pos.y as int, pos.x as int).value != v,
{
    let (y, x) = choose|y: int, x: int|
        0 <= y < 9 && 0 <= x < 9 && !(y == pos.y && x == pos.x) && (x == pos.x || y == pos.y || (y
            / 3 == pos.y as int / 3 && x / 3 == pos.x as int / 3)) && (#[trigger] board.at(
            y,
            x,
        )).value == v;
    assert(full.at(y, x).value == v);
    if full.at(pos.y as int, pos.x as int).value == v {
        assert(board.at(pos.y as int, pos.x as int).value == 0);
        assert(full.conflict(pos, v));
        assert(Position { x: pos.x as int as usize, y: pos.y as int as usize } == pos);
    }
}

/// Fills the empty cells of a board that can be played, from the first
/// on, trying the digits in ascending order and going back where none
/// fits.
fn fill_in(board: &mut SudokuBoard) -> (solved: bool)
    requires
        playable(*old(board)),
    ensures
        solved <==> solvable(*old(board)),
        solved ==> fills(*old(board), *final(board)) && filled_in(*old(board), *final(board)),
        solved ==> forall|full: SudokuBoard| #[trigger]
            fills(*old(board), full) ==> digits_before(*final(board), full),
        solved && first_empty(*old(board)) == 81 ==> *final(board) == *old(board),
        solved && first_empty(*old(board)) < 81 ==> final(board).completed == final(board).complete(),
        !solved ==> same_but_marks(*old(board), *final(board)) && !final(board).completed,
    decreases 81 - first_empty(*old(board)),
{
    let ghost start = *board;
    let pos = match find_empty(board) {
        Some(pos) => pos,
        None => {
            proof {
                lemma_first_empty_from(start, 0, 9, 0);
                lemma_first_empty_lower(start, 81);
                lemma_full_board(start);
                assert(solvable(start));
                assert forall|full: SudokuBoard| #[trigger] fills(start, full) implies digits_before(
                    start,
                    full,
                ) by {
                    assert forall|k: int| 0 <= k < 81 implies (#[trigger] cell_number(
                        start,
                        k,
                    )).value <= cell_number(full, k).value by {
                        assert(start.at(k / 9, k % 9).value != 0);
                    }
                }
            }
            return true;
        },
    };
    proof {
        lemma_first_empty_from(start, 0, pos.y as int, pos.x as int);
        assert(cell_number(start, 9 * pos.y + pos.x) == start.at(pos.y as int, pos.x as int));
    }
    let mut test_val: u8 = 1;
    while test_val <= 9
        invariant
            1 <= test_val <= 10,
            pos.on_board(),
            start == *old(board),
            playable(start),
            start.at(pos.y as int, pos.x as int).value == 0,
            none_empty_before(start, pos.y as int, pos.x as int),
            first_empty(start) == 9 * pos.y + pos.x,
            same_but_marks(start, *board),
            test_val > 1 ==> !board.completed,
            forall|full: SudokuBoard| #[trigger]
                fills(start, full) ==> full.at(pos.y as int, pos.x as int).value >= test_val,
        decreases 10 - test_val,
    {
        let ghost before = *board;
        board.set(pos, test_val);
        let ghost tried = *board;
        proof {
            assert(!before.at(pos.y as int, pos.x as int).loaded);
            assert forall|y: int, x: int|
                0 <= y < 9 && 0 <= x < 9 && !(y == pos.y && x == pos.x) implies (
            #[trigger] tried.at(y, x)).value == start.at(y, x).value by {
                assert(tried.at(y, x) == before.at(y, x));
                assert(start.at(y, x).value == before.at(y, x).value);
            }
            assert(before.conflict(pos, test_val) == start.conflict(pos, test_val)) by {
                if before.conflict(pos, test_val) {
                    let (y, x) = choose|y: int, x: int|
                        0 <= y < 9 && 0 <= x < 9 && !(y == pos.y && x == pos.x) && (x == pos.x || y
                            == pos.y || (y / 3 == pos.y as int / 3 && x / 3 == pos.x as int / 3)) && (
                        #[trigger] before.at(y, x)).value == test_val;
                    assert(start.at(y, x).value == before.at(y, x).value);
                }
                if start.conflict(pos, test_val) {
                    let (y, x) = choose|y: int, x: int|
                        0 <= y < 9 && 0 <= x < 9 && !(y == pos.y && x == pos.x) && (x == pos.x || y
                            == pos.y || (y / 3 == pos.y as int / 3 && x / 3 == pos.x as int / 3)) && (
                        #[trigger] start.at(y, x)).value == test_val;
                    assert(before.at(y, x).value == start.at(y, x).value);
                }
            }
        }
        let mut solved: bool = false;
        if board.get(pos).valid {
            proof {
                assert forall|y: int, x: int|
                    0 <= y < 9 && 0 <= x < 9 && (#[trigger] tried.at(y, x)).value == 0 implies !tried.at(
                    y,
                    x,
                ).loaded by {
                    assert(tried.at(y, x) == before.at(y, x));
                    assert(start.at(y, x).value == 0);
                }
                // the first empty cell has moved on
                let next = 9 * pos.y + pos.x + 1;
                assert forall|r: int, c: int|
                    0 <= r < 9 && 0 <= c < 9 && (r < next / 9 || (r == next / 9 && c < next % 9))
                    implies (#[trigger] tried.at(r, c)).value != 0 by {
                    if !(r == pos.y && c == pos.x) {
                        assert(start.at(r, c).value != 0);
                    }
                }
                assert(none_empty_before(tried, next / 9, next % 9));
                lemma_first_empty_from(tried, 0, next / 9, next % 9);
                lemma_first_empty_lower(tried, next);
                assert(first_empty(tried) >= next);
                assert(first_empty(tried) <= 81);
            }
            solved = fill_in(board);
            proof {
                if solved {
                    lemma_no_conflict_when_filled(start, tried, *board, pos, test_val);
                    assert(filled_in(start, *board)) by {
                        assert forall|y: int, x: int| 0 <= y < 9 && 0 <= x < 9 implies if (
                        #[trigger] start.at(y, x)).value != 0 {
                            board.at(y, x) == start.at(y, x)
                        } else {
                            board.at(y, x).valid && !board.at(y, x).loaded && board.at(
                                y,
                                x,
                            ).value != 0
                        } by {
                            if y == pos.y && x == pos.x {
                                assert(tried.at(y, x).value != 0);
                            } else {
                                assert(tried.at(y, x) == before.at(y, x));
                                if start.at(y, x).value == 0 {
                                    assert(tried.at(y, x).value == 0);
                                }
                            }
                        }
                    }
                    if first_empty(tried) == 81 {
                        assert(tried.completed == tried.complete());
                    }
                }
            }
        }
        if solved {
            proof {
                assert(fills(start, *board));
                assert(solvable(start));
                assert(filled_in(start, *board));
                assert(board.completed == board.complete());
                let done = *board;
                let here = 9 * pos.y + pos.x;
                assert(cell_number(done, here) == done.at(pos.y as int, pos.x as int));
                assert(done.at(pos.y as int, pos.x as int).value == test_val) by {
                    assert(tried.at(pos.y as int, pos.x as int).value == test_val);
                }
                assert forall|full: SudokuBoard| #[trigger] fills(start, full) implies digits_before(
                    done,
                    full,
                ) by {
                    assert(cell_number(full, here) == full.at(pos.y as int, pos.x as int));
                    if full.at(pos.y as int, pos.x as int).value == test_val {
                        lemma_fills_when_tried(start, tried, full, pos);
                    } else {
                        assert(full.at(pos.y as int, pos.x as int).value > test_val);
                        assert forall|k: int|
                            0 <= k < 81 && (forall|j: int|
                                0 <= j < k ==> cell_number(done, j).value == (
                                #[trigger] cell_number(full, j)).value) implies (
                        #[trigger] cell_number(done, k)).value <= cell_number(full, k).value by {
                            if k < here {
                                let r = k / 9;
                                let c = k % 9;
                                assert(start.at(r, c).value != 0);
                                assert(done.at(r, c) == start.at(r, c));
                                assert(full.at(r, c).value == start.at(r, c).value);
                            } else if k > here {
                                assert(cell_number(done, here).value == cell_number(
                                    full,
                                    here,
                                ).value);
                            }
                        }
                    }
                }
            }
            return true;
        }
        let ghost failed = *board;
        board.set(pos, 0);
        proof {
            assert(same_but_marks(tried, failed));
            assert(!failed.at(pos.y as int, pos.x as int).loaded) by {
                assert(tried.at(pos.y as int, pos.x as int).value != 0);
            }
            assert forall|y: int, x: int| 0 <= y < 9 && 0 <= x < 9 implies if (
            #[trigger] start.at(y, x)).value != 0 {
                board.at(y, x) == start.at(y, x)
            } else {
                board.at(y, x).value == 0 && !board.at(y, x).loaded
            } by {
                if !(y == pos.y && x == pos.x) {
                    assert(board.at(y, x) == failed.at(y, x));
                    assert(tried.at(y, x) == before.at(y, x));
                    if tried.at(y, x).value != 0 {
                        assert(failed.at(y, x) == tried.at(y, x));
                    }
                }
            }
            assert(!board.complete()) by {
                assert(board.at(pos.y as int, pos.x as int).value == 0);
            }
            assert forall|full: SudokuBoard| #[trigger] fills(start, full) implies full.at(
                pos.y as int,
                pos.x as int,
            ).value >= test_val + 1 by {
                if full.at(pos.y as int, pos.x as int).value == test_val {
                    if start.conflict(pos, test_val) {
                        lemma_conflict_stays(start, full, pos, test_val);
                    } else {
                        lemma_fills_when_tried(start, tried, full, pos);
                        assert(solvable(tried));
                    }
                }
            }
        }
        test_val += 1;
    }
    proof {
        assert forall|full: SudokuBoard| !fills(start, full) by {
            if fills(start, full) {
                assert(full.at(pos.y as int, pos.x as int).value >= 10);
                assert(start.at(pos.y as int, pos.x as int).value == 0);
            }
        }
    }
    false
}

/// Whether the cells of two boards are the same.
pub open spec fn same_cells(a: SudokuBoard, b: SudokuBoard) -> bool {
    forall|y: int, x: int| 0 <= y < 9 && 0 <= x < 9 ==> #[trigger] a.at(y, x) == b.at(y, x)
}

/// Fills the empty cells from the first on, trying the digits in ascending
/// order and going back where none fits.
///
/// Returns whether the board can be played and can be filled by the rules.
/// If so, it is filled, with the digits that come first, read row by row,
/// among all the ways to fill it. If it can be played but not filled, its
/// digits are as they were. A board that cannot be played, because an
/// empty cell is marked as having come with the puzzle, keeps its cells and
/// is not completed.
pub fn backtrack_helper(board: &mut SudokuBoard) -> (solved: bool)
    ensures
        solved <==> playable(*old(board)) && solvable(*old(board)),
        solved ==> fills(*old(board), *final(board)) && filled_in(*old(board), *final(board)),
        solved ==> forall|full: SudokuBoard| #[trigger]
            fills(*old(board), full) ==> digits_before(*final(board), full),
        solved && first_empty(*old(board)) == 81 ==> *final(board) == *old(board),
        solved && first_empty(*old(board)) < 81 ==> final(board).completed == final(board).complete(),
        !solved && playable(*old(board)) ==> same_but_marks(*old(board), *final(board))
            && !final(board).completed,
        !playable(*old(board)) ==> same_cells(*old(board), *final(board))
            && !final(board).completed,
{
    if !is_playable(board) {
        board.completed = false;
        return false;
    }
    fill_in(board)
}

/// Whether every cell that holds a digit is marked valid.
pub open spec fn digits_valid(board: SudokuBoard) -> bool {
    forall|y: int, x: int|
        0 <= y < 9 && 0 <= x < 9 && (#[trigger] board.at(y, x)).value != 0 ==> board.at(
            y,
            x,
        ).valid
}

/// The solved board, if there is one.
///
/// A board without empty cells is returned as it is if it is completed.
/// A board with empty cells is returned filled if it can be played, can be
/// filled by the rules, and every digit on it is marked valid; of all the
/// ways to fill it, the one is taken whose digits come first, read row by
/// row. There is no solved board where an empty cell is marked as having
/// come with the puzzle.
pub fn backtrack_solve(board: &SudokuBoard) -> (r: Option<SudokuBoard>)
    ensures
        r is Some <==> if first_empty(*board) == 81 {
            board.completed
        } else {
            playable(*board) && solvable(*board) && digits_valid(*board)
        },
        r is Some ==> playable(*board),
        r is Some ==> r->0.completed && fills(*board, r->0) && filled_in(*board, r->0),
        r is Some ==> forall|full: SudokuBoard| #[trigger]
            fills(*board, full) ==> digits_before(r->0, full),
        r is Some && first_empty(*board) < 81 ==> r->0.complete(),
{
    let mut our_board = *board;
    let solved = backtrack_helper(&mut our_board);
    proof {
        lemma_first_empty_lower(*board, 0);
        if first_empty(*board) == 81 {
            lemma_full_board(*board);
            assert(solvable(*board));
            assert(playable(*board));
        }
        if solved && first_empty(*board) < 81 {
            if digits_valid(*board) {
                assert forall|y: int, x: int| 0 <= y < 9 && 0 <= x < 9 implies (
                #[trigger] our_board.at(y, x)).valid && our_board.at(y, x).value != 0 by {
                    if board.at(y, x).value != 0 {
                        assert(our_board.at(y, x) == board.at(y, x));
                    }
                }
            }
            if our_board.complete() {
                assert forall|y: int, x: int|
                    0 <= y < 9 && 0 <= x < 9 && (#[trigger] board.at(y, x)).value != 0
                    implies board.at(y, x).valid by {
                    assert(our_board.at(y, x) == board.at(y, x));
                    assert(our_board.at(y, x).valid);
                }
            }
        }
    }
    if our_board.completed {
        Some(our_board)
    } else {
        None
    }
}

} // verus!
