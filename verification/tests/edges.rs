use tango::board::Edge;
use tango::edges::Edges;

#[test]
fn new_set_is_empty() {
    let edges = Edges::new(6);
    assert_eq!(edges.width(), 6);
    assert!(edges.entries().is_empty());
    assert_eq!(edges.get(0, 1), None);
}

#[test]
fn insert_then_get_in_either_order() {
    let mut edges = Edges::new(4);
    assert!(edges.insert(5, 6, Edge::Equals));
    assert_eq!(edges.get(5, 6), Some(Edge::Equals));
    assert_eq!(edges.get(6, 5), Some(Edge::Equals));
    assert_eq!(edges.get(5, 9), None);
    assert_eq!(edges.entries(), &vec![(5, 6, Edge::Equals)]);
}

#[test]
fn pair_is_stored_smaller_index_first() {
    let mut edges = Edges::new(4);
    assert!(edges.insert(9, 5, Edge::X));
    assert_eq!(edges.entries(), &vec![(5, 9, Edge::X)]);
}

#[test]
fn conflicting_constraints_last_written_wins() {
    let mut edges = Edges::new(4);
    assert!(edges.insert(0, 1, Edge::Equals));
    assert!(edges.insert(1, 0, Edge::X));
    assert_eq!(edges.entries().len(), 1);
    assert_eq!(edges.get(0, 1), Some(Edge::X));
    assert_eq!(edges.get(1, 0), Some(Edge::X));

    assert!(edges.insert(0, 1, Edge::Equals));
    assert_eq!(edges.entries().len(), 1);
    assert_eq!(edges.get(1, 0), Some(Edge::Equals));
}

#[test]
fn cells_that_are_not_neighbours_take_no_constraint() {
    let mut edges = Edges::new(4);
    assert!(!edges.insert(0, 5, Edge::X));
    assert!(!edges.insert(3, 4, Edge::X));
    assert!(!edges.insert(2, 2, Edge::Equals));
    assert!(!edges.insert(15, 16, Edge::Equals));
    assert!(!edges.cycle(0, 2));
    assert!(edges.entries().is_empty());
}

#[test]
fn remove_hands_back_the_kind() {
    let mut edges = Edges::new(4);
    edges.insert(0, 4, Edge::X);
    edges.insert(1, 2, Edge::Equals);
    assert_eq!(edges.remove(4, 0), Some(Edge::X));
    assert_eq!(edges.remove(4, 0), None);
    assert_eq!(edges.get(0, 4), None);
    assert_eq!(edges.get(1, 2), Some(Edge::Equals));
    assert_eq!(edges.entries().len(), 1);
}

#[test]
fn cycle_goes_from_none_to_x_to_equals_to_none() {
    let mut edges = Edges::new(6);
    assert_eq!(edges.get(7, 8), None);
    assert!(edges.cycle(7, 8));
    assert_eq!(edges.get(7, 8), Some(Edge::X));
    assert!(edges.cycle(8, 7));
    assert_eq!(edges.get(7, 8), Some(Edge::Equals));
    assert!(edges.cycle(7, 8));
    assert_eq!(edges.get(7, 8), None);
    assert!(edges.entries().is_empty());
}

#[test]
fn several_pairs_live_side_by_side() {
    let mut edges = Edges::new(4);
    edges.insert(0, 1, Edge::X);
    edges.insert(1, 2, Edge::Equals);
    edges.insert(1, 5, Edge::X);
    assert_eq!(edges.entries().len(), 3);
    assert_eq!(edges.get(0, 1), Some(Edge::X));
    assert_eq!(edges.get(2, 1), Some(Edge::Equals));
    assert_eq!(edges.get(5, 1), Some(Edge::X));
    edges.insert(2, 1, Edge::X);
    assert_eq!(edges.entries().len(), 3);
    assert_eq!(edges.get(1, 2), Some(Edge::X));
    assert_eq!(edges.get(0, 1), Some(Edge::X));
}
