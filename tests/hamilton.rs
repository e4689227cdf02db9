use graph_cycles::graph::{AdjacencyMatrix, SuccessorsList};
use graph_cycles::hamilton::{directed, undirected};

fn is_cycle_of(cycle: &[usize], n: usize, edge: impl Fn(usize, usize) -> bool) -> bool {
    let mut seen = std::collections::HashSet::new();
    cycle.len() == n
        && cycle.iter().all(|v| seen.insert(*v))
        && (0..n).all(|i| edge(cycle[i], cycle[(i + 1) % n]))
}

#[test]
fn directed_test_find_hamilton_cycle() {
    let list = SuccessorsList::from(vec![
        (5, 8),
        (1, 2),
        (2, 3),
        (2, 4),
        (3, 4),
        (3, 5),
        (4, 1),
        (4, 5),
        (5, 1),
    ]);
    let cycle = directed::hamilton_cycle(list);
    assert_ne!(cycle, None);
}

#[test]
fn undirected_test_find_hamilton_cycle() {
    // A triangle: below the four vertices an undirected search needs.
    let arcs = vec![(3, 6), (1, 2), (1, 3), (2, 1), (2, 3), (3, 1), (3, 2)];
    let matrix = AdjacencyMatrix::from(arcs);
    let cycle = undirected::hamilton_cycle(matrix);
    assert_eq!(cycle, None);
}

#[test]
fn undirected_test_run_with_acyclic_graph() {
    let arcs = vec![(7, 6), (1, 2), (1, 3), (2, 4), (2, 5), (3, 6), (3, 7)];
    let matrix = AdjacencyMatrix::from(arcs);
    let cycle = undirected::hamilton_cycle(matrix);
    assert_eq!(cycle, None);
}

#[test]
fn test_no_hamilton_cycle() {
    let arcs = vec![(5, 4), (1, 2), (2, 3), (3, 4), (4, 5)];
    let matrix = AdjacencyMatrix::from(arcs);
    let cycle = undirected::hamilton_cycle(matrix);
    assert_eq!(cycle, None);
}

#[test]
fn directed_test_run_with_acyclic_graph() {
    let list = SuccessorsList::from(vec![(1, 2), (1, 3), (1, 4), (1, 5), (2, 3), (2, 4), (2, 5), (3, 4), (3, 5), (4, 5)]);
    let cycle = directed::hamilton_cycle(list);
    assert_eq!(cycle, None);
}

#[test]
fn test_graph_with_two_nodes() {
    let list = SuccessorsList::from(vec![(1, 2), (2, 1)]);
    let cycle = directed::hamilton_cycle(list);
    assert_eq!(cycle, None);
}

#[test]
fn test_with_empty_graph() {
    let list = SuccessorsList::new();
    let cycle = directed::hamilton_cycle(list);
    assert_eq!(cycle, None);
}

#[test]
fn test_run_with_empty_graph() {
    let matrix = AdjacencyMatrix::new();
    let cycle = undirected::hamilton_cycle(matrix);
    assert_eq!(cycle, None);
}

#[test]
fn directed_triangle_gives_its_three_rotations() {
    let list = SuccessorsList::from(vec![(3, 3), (1, 2), (2, 3), (3, 1)]);
    let cycles = directed::all_hamilton_cycles(list);
    assert_eq!(cycles, vec![vec![1, 2, 3], vec![2, 3, 1], vec![3, 1, 2]]);
}

#[test]
fn directed_square_with_a_loose_vertex_has_no_cycle() {
    let arcs = vec![(5, 0), (1, 2), (2, 3), (3, 4), (4, 1), (5, 5)];
    assert_eq!(directed::hamilton_cycle(SuccessorsList::from(arcs.clone())), None);
    assert_eq!(directed::all_hamilton_cycles(SuccessorsList::from(arcs)), Vec::<Vec<usize>>::new());
}

#[test]
fn complete_undirected_graph_on_four_vertices_has_a_cycle() {
    let arcs = vec![(4, 0), (1, 2), (1, 3), (1, 4), (2, 3), (2, 4), (3, 4)];
    let matrix = AdjacencyMatrix::from(arcs.clone());
    let cycle = undirected::hamilton_cycle(matrix).expect("a cycle");
    assert_eq!(cycle, vec![1, 2, 3, 4]);
    let matrix = AdjacencyMatrix::from(arcs);
    assert!(is_cycle_of(&cycle, 4, |u, v| matrix.matrix()[u][v] == 1));
}

#[test]
fn empty_graphs_give_nothing_in_both_modes() {
    assert_eq!(directed::hamilton_cycle(SuccessorsList::new()), None);
    assert!(directed::all_hamilton_cycles(SuccessorsList::new()).is_empty());
    assert_eq!(undirected::hamilton_cycle(AdjacencyMatrix::new()), None);
    assert!(undirected::all_hamilton_cycles(AdjacencyMatrix::new()).is_empty());
}

#[test]
fn undirected_graphs_below_four_vertices_are_skipped() {
    let triangle = AdjacencyMatrix::from(vec![(3, 0), (1, 2), (2, 3), (3, 1)]);
    assert_eq!(undirected::hamilton_cycle(triangle), None);
}

#[test]
fn every_enumerated_cycle_is_valid_and_distinct() {
    let arcs = vec![(4, 0), (1, 2), (1, 3), (1, 4), (2, 3), (2, 4), (3, 4)];
    let cycles = undirected::all_hamilton_cycles(AdjacencyMatrix::from(arcs.clone()));
    let matrix = AdjacencyMatrix::from(arcs);
    assert!(!cycles.is_empty());
    for (i, c) in cycles.iter().enumerate() {
        assert!(is_cycle_of(c, 4, |u, v| matrix.matrix()[u][v] == 1));
        assert!(cycles[i + 1..].iter().all(|d| d != c));
    }
}

#[test]
fn repeated_calls_agree() {
    let arcs = vec![(5, 0), (1, 2), (2, 3), (2, 4), (3, 4), (3, 5), (4, 1), (4, 5), (5, 1)];
    let first = directed::hamilton_cycle(SuccessorsList::from(arcs.clone()));
    let second = directed::hamilton_cycle(SuccessorsList::from(arcs.clone()));
    assert_eq!(first, second);
    let list = SuccessorsList::from(arcs);
    let cycle = first.expect("a cycle");
    assert!(is_cycle_of(&cycle, 5, |u, v| list.list()[&u].contains(&v)));
}

#[test]
fn directed_successors_are_tried_in_ascending_order() {
    let list = SuccessorsList::from(vec![(3, 3), (1, 3), (1, 2)]);
    assert_eq!(list.next(1), Some(2));
    assert_eq!(list.list()[&1], vec![2, 3]);
}

#[test]
fn a_path_that_does_not_close_ends_the_search_from_its_start() {
    // From 1 the search reaches the full path 1, 2, 3 first; 3 has no arc
    // back to 1, so the start 1 fails although 1, 3, 2 would close. The
    // start 2 then finds 2, 1, 3.
    let list = SuccessorsList::from(vec![(3, 0), (1, 2), (1, 3), (2, 3), (3, 2), (2, 1)]);
    assert_eq!(directed::hamilton_cycle(list), Some(vec![2, 1, 3]));
}
