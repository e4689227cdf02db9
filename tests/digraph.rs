use graph_cycles::digraph::{adjacency, neighbourhood, successors, Color, ColoredVertex, Graph, Matrix};
use std::collections::HashMap;

fn sample() -> Vec<(usize, usize)> {
    vec![
        (1, 2),
        (1, 5),
        (2, 1),
        (2, 3),
        (2, 4),
        (3, 2),
        (3, 5),
        (4, 2),
        (4, 5),
        (5, 1),
    ]
}

#[test]
fn adjacency_test_create_matrix() {
    let test_data: Vec<(usize, usize)> = sample();
    let built_matrix = adjacency::Matrix::from(&test_data).matrix();
    let matrix: Vec<Vec<i8>> = vec![
        vec![0, 0, 0, 0, 0, 0],
        vec![0, 0, 1, 0, 0, 1],
        vec![0, 1, 0, 1, 1, 0],
        vec![0, 0, 1, 0, 0, 1],
        vec![0, 0, 1, 0, 0, 1],
        vec![0, 1, 0, -1, -1, 0],
    ];

    assert_eq!(built_matrix, matrix);
}

#[test]
fn neighbourhood_test_create_matrix() {
    let test_data: Vec<(usize, usize)> = sample();
    let built_matrix = neighbourhood::Matrix::from(&test_data, 5).matrix();
    let matrix: Vec<Vec<i8>> = vec![
        vec![0, 0, 0, 0, 0, 0],
        vec![0, 0, 1, 0, 0, 1],
        vec![0, 1, 0, 1, 1, 0],
        vec![0, 0, 1, 0, 0, 1],
        vec![0, 0, 1, 0, 0, 1],
        vec![0, 1, 0, -1, -1, 0],
    ];

    assert_eq!(built_matrix, matrix);
}

#[test]
fn test_create_successors_list() {
    let input: Vec<(usize, usize)> = vec![(1, 2), (1, 3), (1, 5), (2, 5), (3, 4), (4, 5)];
    let mut correct_list: HashMap<usize, Vec<usize>> = HashMap::new();
    correct_list.insert(1, vec![2, 3, 5]);
    correct_list.insert(2, vec![5]);
    correct_list.insert(3, vec![4]);
    correct_list.insert(4, vec![5]);
    correct_list.insert(5, vec![]);
    let generated_list = successors::List::from(&input).list();
    assert_eq!(correct_list, generated_list);
}

#[test]
fn successors_are_sorted_and_repeated() {
    let input: Vec<(usize, usize)> = vec![(1, 5), (1, 2), (1, 5), (3, 1)];
    let mut expected: HashMap<usize, Vec<usize>> = HashMap::new();
    expected.insert(1, vec![2, 5, 5]);
    expected.insert(2, vec![]);
    expected.insert(3, vec![1]);
    expected.insert(5, vec![]);
    assert_eq!(successors::List::from(&input).list(), expected);
    assert!(successors::List::from(&[]).list().is_empty());
}

#[test]
fn adjacency_matrix_of_no_arcs_is_empty() {
    assert!(adjacency::Matrix::from(&[]).matrix().is_empty());
    // A loop keeps its one; a lone reverse arc gets minus one.
    let m = adjacency::Matrix::from(&[(2, 2), (2, 1)]).matrix();
    assert_eq!(m, vec![vec![0, 0, 0], vec![0, 0, -1], vec![0, 1, 1]]);
}

#[test]
fn test_create_graph_matrix() {
    let graph: Vec<(usize, usize)> = vec![(1, 2), (1, 5), (1, 3), (2, 5), (3, 4), (4, 5)];
    let mut correct_matrix: Vec<Vec<isize>> = Vec::new();
    correct_matrix.push(vec![0,  0,  0,  0,  0,  0,  0,  0,  0,  0]);
    correct_matrix.push(vec![0,  0,  3,  5, -4,  5,  2,  0,  0,  4]);
    correct_matrix.push(vec![0,  7,  0, -4, -4,  5,  5,  1,  0,  3]);
    correct_matrix.push(vec![0,  7, -5,  0,  4, -5,  4,  1,  0,  2]);
    correct_matrix.push(vec![0, -2, -2,  9,  0,  5,  5,  3,  0,  1]);
    correct_matrix.push(vec![0,  8, 10, -3, 10,  0,  0,  1,  0,  3]);
    let generated_matrix = Matrix::from(&graph, 5).matrix();

    assert_eq!(correct_matrix, generated_matrix);
}

#[test]
fn graph_matrix_marks_two_way_arcs() {
    // 1 <-> 2, and 3 apart from both.
    let graph: Vec<(usize, usize)> = vec![(1, 2), (2, 1)];
    let matrix = Matrix::from(&graph, 3);
    assert_eq!(matrix.vertex_count(), 3);
    assert_eq!(matrix.vertices(), vec![1, 2, 3]);
    // s = 4: the two-way neighbour 2 is coded 2 * 4 + 2, the unconnected 3 as -3.
    assert_eq!(matrix.matrix()[1], vec![0, 0, 10, -3, 2, 2, 2, 3]);
    assert_eq!(matrix.matrix()[3], vec![0, -2, -2, 0, 0, 0, 0, 1]);
    let empty = Matrix::from(&[], 0);
    assert!(empty.matrix().is_empty());
    assert!(empty.vertices().is_empty());
}

#[test]
fn empty_graph_has_no_arcs() {
    let graph = Graph::new();
    assert_eq!(graph.vertex_count(), 0);
    assert_eq!(graph.arc_count(), 0);
    assert!(graph.arcs().is_empty());
}

#[test]
fn coloring_a_vertex_keeps_its_value() {
    let mut vertex = ColoredVertex::from(4);
    assert!(vertex.color == Color::White);
    vertex.color(Color::Grey);
    assert!(vertex.color == Color::Grey);
    assert_eq!(vertex.value, 4);
}

#[test]
fn colored_vertices_compare_by_value_alone() {
    let white = ColoredVertex { value: 2, color: Color::White };
    let black = ColoredVertex { value: 2, color: Color::Black };
    assert!(white == black);
    assert!(ColoredVertex::from(1) < white);
    assert!(ColoredVertex::from(3) > black);
}

#[test]
fn graph_read_from_text_drops_its_header() {
    let graph = Graph::from("5 6\n1 2\n2 3\nbad line\n3 1\n1 7\n");
    assert_eq!(graph.arcs(), vec![(1, 2), (2, 3), (3, 1), (1, 7)]);
    assert_eq!(graph.arc_count(), 4);
    assert_eq!(graph.vertex_count(), 4);
}

#[test]
fn test_to_colored_vertex() {
    let graph: Vec<(usize, usize)> = vec![(1, 2), (1, 5), (1, 3), (2, 5), (3, 4), (4, 5)];
    let succ_list = successors::List::from(&graph);
    let list = successors::to_colored_vertex(&succ_list);
    for (_, val) in list {
        assert!(val.iter().all(|item| item.color == Color::White));
    }
}

#[test]
fn colored_vertices_keep_values_and_keys() {
    let graph: Vec<(usize, usize)> = vec![(1, 3), (1, 2)];
    let list = successors::to_colored_vertex(&successors::List::from(&graph));
    let values: Vec<usize> = list[&1].iter().map(|v| v.value).collect();
    assert_eq!(values, vec![2, 3]);
    assert_eq!(list.len(), 3);
    assert!(list[&3].is_empty());
}
