use graph_cycles::graph::{AdjacencyMatrix, SuccessorsList};
use graph_cycles::search::{cycle_from, cycles_from, Adjacency};

#[test]
fn candidate_is_the_smallest_free_successor_above_the_floor() {
    // Successors of 1 listed out of order: the choice is still ascending.
    let list = SuccessorsList::from(vec![(4, 0), (1, 4), (1, 2), (1, 3), (1, 1)]);
    assert_eq!(list.free_successor(1, &vec![], 0), Some(2));
    assert_eq!(list.free_successor(1, &vec![2], 0), Some(3));
    assert_eq!(list.free_successor(1, &vec![], 2), Some(3));
    assert_eq!(list.free_successor(1, &vec![], 3), Some(4));
    // The vertex itself is never its own next step.
    assert_eq!(list.free_successor(1, &vec![], 4), None);
    assert_eq!(list.free_successor(9, &vec![], 0), None);

    let matrix = AdjacencyMatrix::from(vec![(4, 0), (1, 4), (1, 2), (1, 3)]);
    assert_eq!(matrix.free_successor(1, &vec![], 0), Some(2));
    assert_eq!(matrix.free_successor(1, &vec![2, 3], 0), Some(4));
    assert_eq!(matrix.free_successor(1, &vec![], 4), None);
    assert_eq!(matrix.free_successor(1, &vec![], usize::MAX), None);
}

#[test]
fn closing_edges_need_both_ends_to_be_vertices() {
    let list = SuccessorsList::from(vec![(2, 0), (1, 2), (2, 9)]);
    assert!(list.closes(1, 2));
    assert!(!list.closes(2, 9));
    assert!(!list.closes(2, 1));
    assert_eq!(list.order(), 2);
    let matrix = AdjacencyMatrix::from(vec![(2, 0), (1, 2), (0, 1)]);
    assert!(matrix.closes(2, 1));
    assert!(!matrix.closes(0, 1));
    assert_eq!(matrix.order(), 2);
}

#[test]
fn search_from_one_start_and_its_repeats() {
    let list = SuccessorsList::from(vec![(3, 0), (1, 2), (2, 3), (3, 1), (1, 3), (3, 2), (2, 1)]);
    assert_eq!(cycle_from(&list, 1, &vec![]), Some(vec![1, 2, 3]));
    assert_eq!(cycle_from(&list, 1, &vec![vec![1, 2, 3]]), Some(vec![1, 3, 2]));
    assert_eq!(cycle_from(&list, 1, &vec![vec![1, 2, 3], vec![1, 3, 2]]), None);
    assert_eq!(cycles_from(&list, 2), vec![vec![2, 1, 3], vec![2, 3, 1]]);
}

#[test]
fn a_start_with_no_way_out_fails_at_once() {
    let list = SuccessorsList::from(vec![(3, 0), (2, 3), (3, 2)]);
    assert_eq!(cycle_from(&list, 1, &vec![]), None);
    assert!(cycles_from(&list, 1).is_empty());
}
