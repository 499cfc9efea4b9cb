use oxutils::sudoku::solver::{backtrack_helper, backtrack_solve, find_empty, is_playable};
use oxutils::sudoku::{Cell, Position, SudokuBoard, GAME_SIZE};

const WILDCAT: &str =
    "000260701680070090190004500820100040004602900050003028000300074040050036703018000\n";

fn wildcat_cells() -> [[u8; 9]; 9] {
    [
        [0, 0, 0, 2, 6, 0, 7, 0, 1],
        [6, 8, 0, 0, 7, 0, 0, 9, 0],
        [1, 9, 0, 0, 0, 4, 5, 0, 0],
        [8, 2, 0, 1, 0, 0, 0, 4, 0],
        [0, 0, 4, 6, 0, 2, 9, 0, 0],
        [0, 5, 0, 0, 0, 3, 0, 2, 8],
        [0, 0, 0, 3, 0, 0, 0, 7, 4],
        [0, 4, 0, 0, 5, 0, 0, 3, 6],
        [7, 0, 3, 0, 1, 8, 0, 0, 0],
    ]
}

#[test]
fn test_cell_new() {
    let cell = Cell::default();
    assert_eq!(cell.loaded, false);
    assert_eq!(cell.value, 0);
}

#[test]
fn test_board_new() {
    let board = SudokuBoard::new();
    assert_eq!(board.cells[0], [Cell::default(); GAME_SIZE]);
}

#[test]
fn test_load_sdm() {
    let board = SudokuBoard::load_sdm(
        "016400000200009000400000062070230100100000003003087040960000005000800007000006820\n",
    )
    .unwrap();
    let expected = SudokuBoard::from_cells([
        [0, 1, 6, 4, 0, 0, 0, 0, 0],
        [2, 0, 0, 0, 0, 9, 0, 0, 0],
        [4, 0, 0, 0, 0, 0, 0, 6, 2],
        [0, 7, 0, 2, 3, 0, 1, 0, 0],
        [1, 0, 0, 0, 0, 0, 0, 0, 3],
        [0, 0, 3, 0, 8, 7, 0, 4, 0],
        [9, 6, 0, 0, 0, 0, 0, 0, 5],
        [0, 0, 0, 8, 0, 0, 0, 0, 7],
        [0, 0, 0, 0, 0, 6, 8, 2, 0],
    ]);
    for (row, expected_row) in board.cells.iter().zip(expected.cells.iter()) {
        assert_eq!(row, expected_row);
    }
}

#[test]
fn test_invalid_set_row() {
    let mut board = SudokuBoard::new();
    let valid_position = Position::new(0, 1);
    let invalid_position = Position::new(5, 1);
    board.set(valid_position, 2);
    board.set(invalid_position, 2);
    assert_eq!(board.get(valid_position).valid, true);
    assert_eq!(board.get(invalid_position).valid, false);
}

#[test]
fn test_invalid_set_col() {
    let mut board = SudokuBoard::new();
    let valid_position = Position::new(5, 0);
    let invalid_position = Position::new(5, 1);
    board.set(valid_position, 2);
    board.set(invalid_position, 2);
    assert_eq!(board.get(valid_position).valid, true);
    assert_eq!(board.get(invalid_position).valid, false);
}

#[test]
fn test_invalid_set_square() {
    let mut board = SudokuBoard::new();
    let valid_position = Position::new(0, 1);
    let invalid_position = Position::new(2, 1);
    board.set(valid_position, 2);
    board.set(invalid_position, 2);
    assert_eq!(board.get(valid_position).valid, true);
    assert_eq!(board.get(invalid_position).valid, false);
}

#[test]
fn test_initial_board_is_not_complete() {
    let mut board = SudokuBoard::new();
    assert_eq!(board.completed, false);
    board.set(Position::new(1, 0), 2);
    assert_eq!(board.completed, false);
}

#[test]
fn test_wildcat_load() {
    let board = SudokuBoard::load_sdm(WILDCAT).unwrap();
    let expected = SudokuBoard::from_cells(wildcat_cells());
    assert_eq!(board, expected);
}

#[test]
fn test_solve() {
    let board = SudokuBoard::load_sdm(WILDCAT).unwrap();
    let result = backtrack_solve(&board);
    assert!(result.is_some());
    let solved_board = result.unwrap();
    assert!(solved_board.completed);
    assert!(solved_board
        .cells
        .iter()
        .all(|row| row.iter().all(|c| c.valid)));
}

#[test]
fn the_solution_obeys_the_rules() {
    let board = SudokuBoard::from_cells(wildcat_cells());
    let solved = backtrack_solve(&board).unwrap();
    let given = wildcat_cells();
    for y in 0..9 {
        for x in 0..9 {
            let v = solved.cells[y][x].value;
            assert!((1..=9).contains(&v));
            if given[y][x] != 0 {
                assert_eq!(v, given[y][x]);
                assert!(solved.cells[y][x].loaded);
            } else {
                assert!(!solved.cells[y][x].loaded);
            }
            for k in 0..9 {
                if k != x {
                    assert_ne!(solved.cells[y][k].value, v);
                }
                if k != y {
                    assert_ne!(solved.cells[k][x].value, v);
                }
            }
            for r in (y / 3 * 3)..(y / 3 * 3 + 3) {
                for c in (x / 3 * 3)..(x / 3 * 3 + 3) {
                    if (r, c) != (y, x) {
                        assert_ne!(solved.cells[r][c].value, v);
                    }
                }
            }
        }
    }
    assert!(solved.check_completion());
    assert_eq!(find_empty(&solved).map(|p| (p.x, p.y)), None);
    // the input is not changed
    assert_eq!(board, SudokuBoard::from_cells(wildcat_cells()));
    assert_eq!(solved.cells[0][0].value, 4);
}

#[test]
fn a_board_that_cannot_be_filled() {
    // the first row lacks a 9 that its last cell cannot take
    let mut cells = [[0u8; 9]; 9];
    cells[0] = [1, 2, 3, 4, 5, 6, 7, 8, 0];
    cells[1][8] = 9;
    let board = SudokuBoard::from_cells(cells);
    assert_eq!(backtrack_solve(&board), None);
    let mut copy = board;
    assert!(!backtrack_helper(&mut copy));
    for y in 0..9 {
        for x in 0..9 {
            assert_eq!(copy.cells[y][x].value, cells[y][x]);
        }
    }
    assert!(!copy.completed);
}

#[test]
fn boards_that_can_be_played() {
    assert!(is_playable(&SudokuBoard::new()));
    assert!(is_playable(&SudokuBoard::from_cells(wildcat_cells())));
    let mut board = SudokuBoard::new();
    board.cells[4][4].loaded = true;
    assert!(!is_playable(&board));
    board.cells[4][4].value = 7;
    assert!(is_playable(&board));
}

#[test]
fn a_board_that_cannot_be_played_has_no_solution() {
    // an empty cell that is marked as come with the puzzle takes no digit
    let mut board = SudokuBoard::from_cells(wildcat_cells());
    board.cells[0][0].loaded = true;
    assert_eq!(backtrack_solve(&board), None);
    board.cells[0][0].valid = true;
    assert_eq!(backtrack_solve(&board), None);
    let mut copy = board;
    copy.completed = true;
    assert!(!backtrack_helper(&mut copy));
    assert_eq!(copy.cells, board.cells);
    assert!(!copy.completed);
    // the mark on a cell further on counts as well
    let mut late = SudokuBoard::from_cells(wildcat_cells());
    late.cells[8][8].loaded = true;
    assert_eq!(backtrack_solve(&late), None);
}

#[test]
fn first_empty_cell_row_by_row() {
    let mut cells = [[5u8; 9]; 9];
    cells[3][4] = 0;
    cells[7][1] = 0;
    let board = SudokuBoard::from_cells(cells);
    let p = find_empty(&board).unwrap();
    assert_eq!((p.x, p.y), (4, 3));
    assert!(find_empty(&SudokuBoard::from_cells([[5u8; 9]; 9])).is_none());
    assert!(SudokuBoard::new().get(Position::new(8, 8)).is_empty());
}

#[test]
fn loaded_cells_stay() {
    let mut board = SudokuBoard::from_cells(wildcat_cells());
    board.set(Position::new(3, 0), 9);
    assert_eq!(board.get(Position::new(3, 0)).value, 2);
    board.set(Position::new(0, 0), 4);
    assert_eq!(board.get(Position::new(0, 0)).value, 4);
    assert!(board.get(Position::new(0, 0)).valid);
    // taking the digit away meets the other empty cells
    board.set(Position::new(0, 0), 0);
    assert_eq!(board.get(Position::new(0, 0)).value, 0);
    assert!(!board.get(Position::new(0, 0)).valid);
}

#[test]
fn digits_as_characters() {
    let board = SudokuBoard::from_cells(wildcat_cells());
    assert_eq!(board.char(Position::new(3, 0)), Some('2'));
    assert_eq!(board.char(Position::new(0, 0)), None);
    assert_eq!(board.char(Position::new(0, 8)), Some('7'));
    let mut other = SudokuBoard::new();
    other.set(Position::new(0, 0), 12);
    assert_eq!(other.char(Position::new(0, 0)), None);
}

#[test]
fn puzzles_from_text() {
    assert!(SudokuBoard::load_sdm("12x").is_none());
    assert!(SudokuBoard::load_sdm(&"1".repeat(82)).is_none());
    assert!(SudokuBoard::load_sdm(&"1".repeat(81)).is_some());
    let short = SudokuBoard::load_sdm("0120 \n\t").unwrap();
    assert_eq!(short.cells[0][1], Cell { value: 1, loaded: true, valid: true });
    assert_eq!(short.cells[0][2], Cell { value: 2, loaded: true, valid: true });
    assert_eq!(short.cells[0][0], Cell { value: 0, loaded: false, valid: false });
    assert_eq!(short.cells[0][3], Cell { value: 0, loaded: false, valid: false });
    assert_eq!(short.cells[0][4], Cell::default());
    assert_eq!(SudokuBoard::load_sdm("").unwrap(), SudokuBoard::new());
    assert_eq!(SudokuBoard::default(), SudokuBoard::new());
}

#[test]
fn the_board_as_text() {
    let text = SudokuBoard::from_cells(wildcat_cells()).to_string();
    assert_eq!(
        text,
        "[\n[000260701],\n[680070090],\n[190004500],\n[820100040],\n[004602900],\n[050003028],\n[000300074],\n[040050036],\n[703018000],\n]\n"
    );
}

#[test]
fn a_full_board_is_returned_if_completed() {
    let solved = backtrack_solve(&SudokuBoard::from_cells(wildcat_cells())).unwrap();
    assert_eq!(backtrack_solve(&solved), Some(solved));
    let mut cells = [[0u8; 9]; 9];
    for y in 0..9 {
        for x in 0..9 {
            cells[y][x] = solved.cells[y][x].value;
        }
    }
    // as it is loaded the board is full, but not marked as completed
    assert_eq!(backtrack_solve(&SudokuBoard::from_cells(cells)), None);
}
