use tango::board::{are_adjacent, index_to_xy, xy_to_index, Edge, Square};

#[test]
fn square_next_cycles_through_all_three() {
    assert_eq!(Square::Empty.next(), Square::Sun);
    assert_eq!(Square::Sun.next(), Square::Moon);
    assert_eq!(Square::Moon.next(), Square::Empty);
    assert_eq!(Square::Empty.next().next().next(), Square::Empty);
}

#[test]
fn square_codes() {
    assert_eq!(Square::Empty.to_u8(), 0);
    assert_eq!(Square::Sun.to_u8(), 1);
    assert_eq!(Square::Moon.to_u8(), 2);
}

#[test]
fn square_from_code_inverts_to_code() {
    assert_eq!(Square::from_u8(0), Square::Empty);
    assert_eq!(Square::from_u8(1), Square::Sun);
    assert_eq!(Square::from_u8(2), Square::Moon);
    for square in [Square::Empty, Square::Sun, Square::Moon] {
        assert_eq!(Square::from_u8(square.to_u8()), square);
    }
}

#[test]
fn edge_text() {
    assert_eq!(Edge::X.to_text(), "X");
    assert_eq!(Edge::Equals.to_text(), "=");
}

#[test]
fn index_is_row_major() {
    assert_eq!(xy_to_index(0, 0, 4), 0);
    assert_eq!(xy_to_index(1, 0, 4), 1);
    assert_eq!(xy_to_index(0, 1, 4), 4);
    assert_eq!(xy_to_index(3, 3, 4), 15);
    assert_eq!(xy_to_index(5, 2, 6), 17);
    assert_eq!(xy_to_index(7, 7, 8), 63);
}

#[test]
fn index_to_xy_gives_column_then_row() {
    assert_eq!(index_to_xy(0, 4), (0, 0));
    assert_eq!(index_to_xy(1, 4), (1, 0));
    assert_eq!(index_to_xy(4, 4), (0, 1));
    assert_eq!(index_to_xy(15, 4), (3, 3));
    assert_eq!(index_to_xy(17, 6), (5, 2));
}

#[test]
fn index_round_trip() {
    for width in [4u32, 6, 8] {
        for y in 0..width {
            for x in 0..width {
                let index = xy_to_index(x, y, width);
                assert_eq!(index_to_xy(index, width), (x, y));
            }
        }
    }
}

#[test]
fn neighbours_along_a_row_and_a_column() {
    assert!(are_adjacent(0, 1, 4));
    assert!(are_adjacent(1, 0, 4));
    assert!(are_adjacent(0, 4, 4));
    assert!(are_adjacent(4, 0, 4));
    assert!(are_adjacent(10, 11, 4));
    assert!(are_adjacent(10, 14, 4));
}

#[test]
fn not_neighbours() {
    // the same cell
    assert!(!are_adjacent(5, 5, 4));
    // end of one row and start of the next
    assert!(!are_adjacent(3, 4, 4));
    // diagonal
    assert!(!are_adjacent(0, 5, 4));
    // two apart
    assert!(!are_adjacent(0, 2, 4));
    assert!(!are_adjacent(0, 8, 4));
    // off the grid
    assert!(!are_adjacent(15, 16, 4));
    assert!(!are_adjacent(12, 16, 4));
    // no grid at all
    assert!(!are_adjacent(0, 1, 0));
}
