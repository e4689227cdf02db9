use graph_cycles::graph::AdjacencyMatrix;
use std::collections::HashSet;

#[test]
fn test_create_empty() {
    let matrix = AdjacencyMatrix::new();
    assert_eq!(matrix.matrix(), &Vec::<Vec<u8>>::new());
    assert_eq!(matrix.nodes(), &HashSet::new());
}

#[test]
fn test_create_from() {
    let expected: Vec<Vec<u8>> = vec![
        vec![0, 0, 0, 0],
        vec![0, 0, 1, 0],
        vec![0, 1, 0, 1],
        vec![0, 0, 1, 0],
    ];
    let nodes: HashSet<usize> = (1..=3).collect();
    let matrix = AdjacencyMatrix::from(vec![(3, 2), (1, 2), (2, 3)]);
    assert_eq!(matrix.matrix(), &expected);
    assert_eq!(matrix.nodes(), &nodes);
}

#[test]
fn test_get_next() {
    let matrix = AdjacencyMatrix::from(vec![(4, 5), (1, 2), (2, 3), (2, 4), (3, 4), (4, 1)]);
    assert_eq!(matrix.next(1), Some(2));
    assert_eq!(matrix.next(2), Some(1));
    assert_eq!(matrix.next(4), Some(1));
    assert_eq!(matrix.next(5), None);
}

#[test]
fn test_get_next_from_empty() {
    assert_eq!(AdjacencyMatrix::new().next(0), None);
    assert_eq!(AdjacencyMatrix::new().next(1), None);
}

#[test]
fn test_remove_edge_from_matrix() {
    let mut matrix = AdjacencyMatrix::from(vec![(3, 4), (1, 2), (1, 3), (2, 3), (3, 1)]);
    assert_eq!(matrix.next(1), Some(2));
    matrix.remove_edge(1, 2);
    assert_eq!(matrix.next(1), Some(3));
}

#[test]
fn test_check_node_degree() {
    let matrix =
        AdjacencyMatrix::from(vec![(5, 6), (1, 2), (1, 3), (2, 3), (3, 4), (3, 5), (4, 5)]);
    assert_eq!(matrix.deg(1), Some(2));
    assert_eq!(matrix.deg(2), Some(2));
    assert_eq!(matrix.deg(3), Some(4));
    assert_eq!(matrix.deg(4), Some(2));
    assert_eq!(matrix.deg(5), Some(2));
}

#[test]
fn test_has_edges() {
    // Four vertices and no edge: a 5 x 5 zero matrix.
    let no_edges = AdjacencyMatrix::from(vec![(4, 0)]);
    assert_eq!(no_edges.matrix(), &vec![vec![0u8; 5]; 5]);
    assert_eq!(no_edges.nodes(), &(1..=4).collect::<HashSet<usize>>());

    let empty_matrix = AdjacencyMatrix::new();
    let matrix = AdjacencyMatrix::from(vec![(5, 5), (1, 2), (2, 3), (2, 5), (3, 4), (3, 5)]);

    assert!(!no_edges.has_edges());
    assert!(!empty_matrix.has_edges());
    assert!(matrix.has_edges());
}

#[test]
fn matrix_copy_and_vertex_count() {
    let matrix = AdjacencyMatrix::from(vec![(3, 0), (1, 2), (2, 3)]);
    assert_eq!(&matrix.matrix_mut(), matrix.matrix());
    assert_eq!(matrix.vertex_count(), 3);
    assert_eq!(AdjacencyMatrix::new().vertex_count(), 0);
}

#[test]
fn removing_an_edge_clears_both_directions() {
    let mut matrix = AdjacencyMatrix::from(vec![(3, 0), (1, 2), (2, 3)]);
    matrix.remove_edge(2, 1);
    assert_eq!(matrix.matrix()[1][2], 0);
    assert_eq!(matrix.matrix()[2][1], 0);
    assert_eq!(matrix.deg(2), Some(1));
    // An end that is not a vertex leaves the graph unchanged.
    matrix.remove_edge(2, 7);
    assert_eq!(matrix.deg(2), Some(1));
    assert_eq!(matrix.deg(9), None);
}
