use tango::board::{Edge, Square};
use tango::checker::is_valid_permutation;
use tango::edges::Edges;
use tango::permute::SolvedSquare;
use tango::permute::SolvedSquare::{Moon, Sun};

// A grid that obeys every rule:
//   S M S M
//   M S M S
//   S M M S
//   M S S M
fn good_grid() -> Vec<SolvedSquare> {
    vec![
        Sun, Moon, Sun, Moon, //
        Moon, Sun, Moon, Sun, //
        Sun, Moon, Moon, Sun, //
        Moon, Sun, Sun, Moon,
    ]
}

fn empty_board() -> Vec<Square> {
    vec![Square::Empty; 16]
}

#[test]
fn good_grid_passes_on_an_empty_board() {
    assert!(is_valid_permutation(&good_grid(), &empty_board(), &Edges::new(4), 4));
}

#[test]
fn fixed_cells_must_be_kept() {
    let mut board = empty_board();
    board[0] = Square::Sun;
    board[5] = Square::Sun;
    board[15] = Square::Moon;
    assert!(is_valid_permutation(&good_grid(), &board, &Edges::new(4), 4));
    board[1] = Square::Sun;
    assert!(!is_valid_permutation(&good_grid(), &board, &Edges::new(4), 4));
}

#[test]
fn fixed_sun_with_unequal_neighbour() {
    // cell (0,0) is a fixed Sun and must differ from cell (1,0)
    let mut board = empty_board();
    board[0] = Square::Sun;
    let mut edges = Edges::new(4);
    assert!(edges.insert(0, 1, Edge::X));
    let grid = good_grid();
    assert_eq!(grid[0], Sun);
    assert_eq!(grid[1], Moon);
    assert!(is_valid_permutation(&grid, &board, &edges, 4));
}

#[test]
fn unequal_constraint_rejects_equal_cells() {
    let mut edges = Edges::new(4);
    edges.insert(9, 10, Edge::X);
    assert!(!is_valid_permutation(&good_grid(), &empty_board(), &edges, 4));
    let mut edges = Edges::new(4);
    edges.insert(9, 10, Edge::Equals);
    assert!(is_valid_permutation(&good_grid(), &empty_board(), &edges, 4));
}

#[test]
fn equal_constraint_rejects_unequal_cells() {
    let mut edges = Edges::new(4);
    edges.insert(0, 4, Edge::Equals);
    assert!(!is_valid_permutation(&good_grid(), &empty_board(), &edges, 4));
    let mut edges = Edges::new(4);
    edges.insert(4, 0, Edge::X);
    assert!(is_valid_permutation(&good_grid(), &empty_board(), &edges, 4));
}

#[test]
fn unbalanced_row_is_rejected() {
    // columns balanced, no long runs, but rows 0 and 1 hold 3 to 1
    let grid = vec![
        Sun, Sun, Moon, Sun, //
        Moon, Moon, Sun, Moon, //
        Sun, Moon, Sun, Moon, //
        Moon, Sun, Moon, Sun,
    ];
    assert!(!is_valid_permutation(&grid, &empty_board(), &Edges::new(4), 4));
}

#[test]
fn unbalanced_column_is_rejected() {
    // rows balanced, no long runs, but columns 0 and 1 hold 3 to 1
    let grid = vec![
        Sun, Moon, Sun, Moon, //
        Sun, Moon, Moon, Sun, //
        Moon, Sun, Sun, Moon, //
        Sun, Moon, Moon, Sun,
    ];
    assert!(!is_valid_permutation(&grid, &empty_board(), &Edges::new(4), 4));
}

#[test]
fn run_of_three_in_a_row_is_rejected() {
    // 6 x 6, rows and columns balanced, but row 0 starts with three Suns
    let grid = vec![
        Sun, Sun, Sun, Moon, Moon, Moon, //
        Moon, Moon, Sun, Sun, Moon, Sun, //
        Sun, Moon, Moon, Sun, Sun, Moon, //
        Moon, Sun, Moon, Moon, Sun, Sun, //
        Sun, Moon, Sun, Moon, Sun, Moon, //
        Moon, Sun, Moon, Sun, Moon, Sun,
    ];
    let board = vec![Square::Empty; 36];
    for line in 0..6 {
        let in_row = (0..6).filter(|x| grid[line * 6 + x] == Sun).count();
        let in_column = (0..6).filter(|y| grid[y * 6 + line] == Sun).count();
        assert_eq!(in_row, 3);
        assert_eq!(in_column, 3);
    }
    assert!(!is_valid_permutation(&grid, &board, &Edges::new(6), 6));
}

#[test]
fn run_of_three_in_a_column_is_rejected() {
    // the grid of the test above, turned about its diagonal
    let rows = vec![
        Sun, Sun, Sun, Moon, Moon, Moon, //
        Moon, Moon, Sun, Sun, Moon, Sun, //
        Sun, Moon, Moon, Sun, Sun, Moon, //
        Moon, Sun, Moon, Moon, Sun, Sun, //
        Sun, Moon, Sun, Moon, Sun, Moon, //
        Moon, Sun, Moon, Sun, Moon, Sun,
    ];
    let mut grid = rows.clone();
    for y in 0..6 {
        for x in 0..6 {
            grid[y * 6 + x] = rows[x * 6 + y];
        }
    }
    let board = vec![Square::Empty; 36];
    assert!(!is_valid_permutation(&grid, &board, &Edges::new(6), 6));
}

#[test]
fn six_by_six_grid_passes() {
    let grid = vec![
        Sun, Sun, Moon, Sun, Moon, Moon, //
        Moon, Moon, Sun, Moon, Sun, Sun, //
        Sun, Moon, Sun, Sun, Moon, Moon, //
        Moon, Sun, Moon, Moon, Sun, Sun, //
        Sun, Moon, Sun, Moon, Sun, Moon, //
        Moon, Sun, Moon, Sun, Moon, Sun,
    ];
    let board = vec![Square::Empty; 36];
    assert!(is_valid_permutation(&grid, &board, &Edges::new(6), 6));
}

#[test]
fn two_in_a_row_is_allowed_and_runs_restart() {
    // S S M M / M M S S / S S M M / M M S S has runs of two only
    let grid = vec![
        Sun, Sun, Moon, Moon, //
        Moon, Moon, Sun, Sun, //
        Sun, Sun, Moon, Moon, //
        Moon, Moon, Sun, Sun,
    ];
    assert!(is_valid_permutation(&grid, &empty_board(), &Edges::new(4), 4));
}

#[test]
fn odd_width_never_balances() {
    let grid = vec![
        Sun, Moon, Sun, //
        Moon, Sun, Moon, //
        Sun, Moon, Sun,
    ];
    let board = vec![Square::Empty; 9];
    assert!(!is_valid_permutation(&grid, &board, &Edges::new(3), 3));
}

#[test]
fn empty_grid_passes() {
    let grid: Vec<SolvedSquare> = Vec::new();
    let board: Vec<Square> = Vec::new();
    assert!(is_valid_permutation(&grid, &board, &Edges::new(0), 0));
}
