use graph_cycles::digraph::{adjacency, successors};
use graph_cycles::topological;

#[test]
fn test_sort_graph_adjacency_matrix() {
    let graph: Vec<(usize, usize)> = vec![(1, 2), (1, 5), (1, 3), (2, 5), (3, 2), (3, 4), (4, 2), (4, 5)];
    let matrix = adjacency::Matrix::from(&graph);
    let sorted = topological::adjacency::sort(&matrix);
    assert_eq!(sorted, vec![1, 3, 4, 2, 5])
}

#[test]
fn adjacency_test_sort_with_cycle() {
    let graph: Vec<(usize, usize)> = vec![(1, 5), (1, 3), (2, 1), (2, 5), (3, 2), (3, 4), (4, 5)];
    let matrix = adjacency::Matrix::from(&graph);
    let sorted = topological::adjacency::sort(&matrix);
    assert_eq!(sorted, vec![])
}

#[test]
fn test_sort_graph_successor_list() {
    let graph: Vec<(usize, usize)> = vec![(1, 2), (1, 5), (1, 3), (2, 5), (3, 2), (3, 4), (4, 2), (4, 5)];
    let list = successors::List::from(&graph);
    let sorted = topological::successors::sort(&list);
    assert_eq!(sorted, vec![1, 3, 4, 2, 5])
}

#[test]
fn successors_test_sort_with_cycle() {
    let graph: Vec<(usize, usize)> = vec![(1, 5), (1, 3), (2, 1), (2, 5), (3, 2), (3, 4), (4, 5)];
    let graph_matrix = successors::List::from(&graph);
    let sorted = topological::successors::sort(&graph_matrix);
    assert_eq!(sorted, vec![])
}

#[test]
fn every_arc_goes_forward_in_the_order() {
    let graph: Vec<(usize, usize)> = vec![(3, 1), (2, 1), (3, 2), (4, 3)];
    let sorted = topological::successors::sort(&successors::List::from(&graph));
    assert_eq!(sorted.len(), 4);
    let position = |v: usize| sorted.iter().position(|&x| x == v).unwrap();
    assert!(graph.iter().all(|&(a, b)| position(a) < position(b)));
    let sorted = topological::adjacency::sort(&adjacency::Matrix::from(&graph));
    assert_eq!(sorted, vec![4, 3, 2, 1]);
}

#[test]
fn a_loop_or_no_vertex_gives_nothing() {
    assert!(topological::successors::sort(&successors::List::from(&[(1, 1)])).is_empty());
    assert!(topological::adjacency::sort(&adjacency::Matrix::from(&[(1, 2), (2, 2)])).is_empty());
    assert!(topological::successors::sort(&successors::List::from(&[])).is_empty());
}

#[test]
fn test_sort_neighbourhood() {
    let graph: Vec<(usize, usize)> = vec![(1, 2), (1, 5), (1, 3), (2, 5), (3, 4), (4, 5)];
    let neigh_matrix = adjacency::Matrix::from(&graph);
    let sorted: Vec<usize> = topological::adjacency::sort_depth_first(&neigh_matrix);
    assert_eq!(sorted, vec![1, 3, 4, 2, 5]);
}

#[test]
fn test_sort_with_cycle() {
    let graph: Vec<(usize, usize)> = vec![(1, 5), (1, 3), (2, 1), (2, 5), (3, 2), (3, 4), (4, 5)];
    let neigh_matrix = adjacency::Matrix::from(&graph);
    let sorted = topological::adjacency::sort_depth_first(&neigh_matrix);
    assert_eq!(sorted, vec![])
}

#[test]
fn test_sort_successors_list() {
    let graph: Vec<(usize, usize)> = vec![(1, 2), (1, 5), (1, 3), (2, 5), (3, 4), (4, 5)];
    let succ_list = successors::List::from(&graph);
    let sorted = topological::successors::sort_depth_first(&succ_list);
    assert_eq!(sorted, vec![1, 3, 4, 2, 5])
}

#[test]
fn successors_list_test_sort_with_cycle() {
    let graph: Vec<(usize, usize)> = vec![(1, 5), (1, 3), (2, 1), (2, 5), (3, 2), (3, 4), (4, 5)];
    let succ_list = successors::List::from(&graph);
    let sorted = topological::successors::sort_depth_first(&succ_list);
    assert_eq!(sorted, vec![])
}

#[test]
fn depth_first_restarts_at_the_smallest_unvisited_vertex() {
    // Two components: 3 -> 1 and 2 alone.
    let graph: Vec<(usize, usize)> = vec![(3, 1), (2, 2)];
    assert!(topological::successors::sort_depth_first(&successors::List::from(&graph)).is_empty());
    let graph: Vec<(usize, usize)> = vec![(3, 1), (4, 2)];
    let sorted = topological::successors::sort_depth_first(&successors::List::from(&graph));
    assert_eq!(sorted, vec![4, 3, 2, 1]);
    let sorted = topological::adjacency::sort_depth_first(&adjacency::Matrix::from(&graph));
    assert_eq!(sorted, vec![4, 3, 2, 1]);
}
