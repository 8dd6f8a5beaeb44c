use tango::board::{Edge, Square};
use tango::checker::is_valid_permutation;
use tango::edges::Edges;
use tango::permute::BalancedPermutations;
use tango::permute::SolvedSquare::{Moon, Sun};
use tango::solver::solve;

fn empty_board() -> Vec<Square> {
    vec![Square::Empty; 16]
}

#[test]
fn empty_four_by_four_board_is_solvable() {
    assert!(solve(&empty_board(), &Edges::new(4), 4));
}

#[test]
fn three_fixed_suns_in_one_row_cannot_be_solved() {
    let mut board = empty_board();
    board[4] = Square::Sun;
    board[5] = Square::Sun;
    board[7] = Square::Sun;
    assert!(!solve(&board, &Edges::new(4), 4));
}

#[test]
fn three_fixed_moons_in_one_column_cannot_be_solved() {
    let mut board = empty_board();
    board[2] = Square::Moon;
    board[6] = Square::Moon;
    board[14] = Square::Moon;
    assert!(!solve(&board, &Edges::new(4), 4));
}

#[test]
fn fixed_sun_with_unequal_neighbour_is_solvable() {
    let mut board = empty_board();
    board[0] = Square::Sun;
    let mut edges = Edges::new(4);
    assert!(edges.insert(0, 1, Edge::X));
    assert!(solve(&board, &edges, 4));

    // a solution written by hand, with a Moon at (1,0)
    let grid = vec![
        Sun, Moon, Sun, Moon, //
        Moon, Sun, Moon, Sun, //
        Sun, Moon, Moon, Sun, //
        Moon, Sun, Sun, Moon,
    ];
    assert_eq!(grid[1], Moon);
    assert!(is_valid_permutation(&grid, &board, &edges, 4));

    // and every candidate that the search would accept has a Moon there
    let mut generator = BalancedPermutations::new(16);
    let mut accepted = 0;
    while let Some(candidate) = generator.next() {
        if is_valid_permutation(&candidate, &board, &edges, 4) {
            assert_eq!(candidate[0], Sun);
            assert_eq!(candidate[1], Moon);
            accepted += 1;
        }
    }
    assert!(accepted >= 1);
}

#[test]
fn same_inputs_give_the_same_answer() {
    let mut board = empty_board();
    board[3] = Square::Moon;
    board[9] = Square::Sun;
    let mut edges = Edges::new(4);
    edges.insert(3, 7, Edge::Equals);
    edges.insert(9, 10, Edge::X);
    let first = solve(&board, &edges, 4);
    for _ in 0..3 {
        assert_eq!(solve(&board, &edges, 4), first);
    }
    // the same constraints, written in another order and the other way round
    let mut other = Edges::new(4);
    other.insert(10, 9, Edge::X);
    other.insert(7, 3, Edge::Equals);
    assert_eq!(solve(&board.clone(), &other, 4), first);
}

#[test]
fn answer_agrees_with_a_plain_search() {
    let mut board = empty_board();
    board[0] = Square::Moon;
    board[1] = Square::Moon;
    board[12] = Square::Sun;
    let mut edges = Edges::new(4);
    edges.insert(5, 6, Edge::Equals);
    edges.insert(10, 14, Edge::X);
    let mut generator = BalancedPermutations::new(16);
    let mut found = false;
    while let Some(candidate) = generator.next() {
        if is_valid_permutation(&candidate, &board, &edges, 4) {
            found = true;
        }
    }
    assert_eq!(solve(&board, &edges, 4), found);
}

#[test]
fn constraints_alone_can_rule_out_every_grid() {
    // three cells in a row, each equal to the next, make a run of three
    let mut edges = Edges::new(4);
    edges.insert(0, 1, Edge::Equals);
    edges.insert(1, 2, Edge::Equals);
    assert!(!solve(&empty_board(), &edges, 4));
}

#[test]
fn last_written_constraint_decides() {
    // cells 0 and 1 fixed to the same symbol: only "equal" can be met
    let mut board = empty_board();
    board[0] = Square::Sun;
    board[1] = Square::Sun;
    let mut edges = Edges::new(4);
    edges.insert(0, 1, Edge::Equals);
    edges.insert(1, 0, Edge::X);
    assert!(!solve(&board, &edges, 4));
    edges.insert(0, 1, Edge::Equals);
    assert!(solve(&board, &edges, 4));
}

#[test]
fn fully_fixed_board() {
    let solution = [
        Square::Sun, Square::Moon, Square::Sun, Square::Moon, //
        Square::Moon, Square::Sun, Square::Moon, Square::Sun, //
        Square::Sun, Square::Moon, Square::Moon, Square::Sun, //
        Square::Moon, Square::Sun, Square::Sun, Square::Moon,
    ];
    assert!(solve(&solution, &Edges::new(4), 4));
    let mut broken = solution;
    broken[0] = Square::Moon;
    assert!(!solve(&broken, &Edges::new(4), 4));
}

#[test]
fn width_two_and_width_zero() {
    // S M / M S
    assert!(solve(&[Square::Empty; 4], &Edges::new(2), 2));
    let mut edges = Edges::new(2);
    edges.insert(0, 1, Edge::Equals);
    assert!(!solve(&[Square::Empty; 4], &edges, 2));
    assert!(solve(&[], &Edges::new(0), 0));
}
