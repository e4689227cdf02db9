use graph_cycles::graph::SuccessorsList;
use std::collections::HashMap;

#[test]
fn graph_test_create_empty() {
    assert_eq!(SuccessorsList::new().list(), &HashMap::new());
}

#[test]
fn graph_test_create_from() {
    let mut list = HashMap::new();
    list.insert(1, vec![2, 3]);
    list.insert(2, vec![3]);
    list.insert(3, vec![1, 4]);
    list.insert(4, vec![]);

    assert_eq!(
        SuccessorsList::from(vec![(4, 5), (1, 2), (1, 3), (2, 3), (3, 1), (3, 4)]).list(),
        &list
    );
}

#[test]
fn graph_test_get_next() {
    let list = SuccessorsList::from(vec![(4, 5), (1, 2), (2, 3), (2, 4), (3, 4), (4, 1)]);

    assert_eq!(list.next(1), Some(2));
    assert_eq!(list.next(2), Some(3));
    assert_eq!(list.next(3), Some(4));
    assert_eq!(list.next(4), Some(1));
    assert_eq!(list.next(5), None)
}

#[test]
fn graph_test_get_next_from_empty() {
    let list = SuccessorsList::new();
    assert_eq!(list.next(1), None);
}

#[test]
fn test_remove_edge_from_list() {
    let mut list = SuccessorsList::from(vec![(3, 4), (1, 2), (1, 3), (2, 3), (3, 1)]);
    assert_eq!(list.next(1), Some(2));
    list.remove_edge(1, 2);
    assert_eq!(list.next(1), Some(3));
}

#[test]
fn graph_test_check_node_degree() {
    let list = SuccessorsList::from(vec![(5, 6), (1, 2), (1, 3), (2, 3), (3, 4), (3, 5), (4, 5)]);
    assert_eq!(list.deg(1), Some(2));
    assert_eq!(list.deg(2), Some(0));
    assert_eq!(list.deg(3), Some(0));
    assert_eq!(list.deg(4), Some(0));
    assert_eq!(list.deg(5), Some(-2));
    assert_eq!(list.deg(8), None);
}

#[test]
fn graph_test_has_edges() {
    let list = SuccessorsList::from(vec![(3, 3), (1, 2), (2, 3), (3, 1)]);
    let no_edges = SuccessorsList::from_list((0..5).map(|key| (key, Vec::with_capacity(2))).collect());
    let empty = SuccessorsList::new();

    assert!(list.has_edges());
    assert!(!no_edges.has_edges());
    assert!(!empty.has_edges());
}

#[test]
fn repeated_arcs_are_kept_once_and_sources_become_vertices() {
    let list = SuccessorsList::from(vec![(2, 0), (1, 2), (1, 2), (7, 1)]);
    let mut expected = HashMap::new();
    expected.insert(1, vec![2]);
    expected.insert(2, vec![]);
    expected.insert(7, vec![1]);
    assert_eq!(list.list(), &expected);
    assert_eq!(&list.list_mut(), list.list());
    assert_eq!(list.vertex_count(), 3);
}

#[test]
fn removing_an_absent_arc_changes_nothing() {
    let mut list = SuccessorsList::from(vec![(3, 0), (1, 2), (2, 3)]);
    list.remove_edge(1, 3);
    list.remove_edge(1, 9);
    assert_eq!(list.next(1), Some(2));
    list.remove_edge(2, 3);
    assert_eq!(list.next(2), None);
    assert!(list.has_edges());
}
