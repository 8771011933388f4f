use tree_validator::adjacency::{build_graph, visit};
use tree_validator::Solution;

#[test]
fn sample_1() {
    let result = Solution::valid_tree(&Solution::test_fixture_1(), &5);
    assert_eq!(result, true);
}

#[test]
fn sample_2() {
    let result = Solution::valid_tree(&Solution::test_fixture_2(), &5);
    assert_eq!(result, false);
}

#[test]
fn fixtures_hold_the_sample_edges() {
    assert_eq!(Solution::test_fixture_1(), vec![(0, 1), (0, 2), (0, 3), (1, 4)]);
    assert_eq!(Solution::test_fixture_2(), vec![(0, 1), (1, 2), (2, 3), (1, 3), (1, 4)]);
}

#[test]
fn single_node_without_edges_is_a_tree() {
    assert!(Solution::valid_tree(&vec![], &1));
}

#[test]
fn no_nodes_without_edges_is_a_tree() {
    assert!(Solution::valid_tree(&vec![], &0));
    assert!(!Solution::valid_tree(&vec![(0, 0)], &0));
}

#[test]
fn two_nodes_without_edges_are_not_a_tree() {
    assert!(!Solution::valid_tree(&vec![], &2));
}

#[test]
fn unreachable_node_is_rejected() {
    assert!(!Solution::valid_tree(&vec![(0, 1)], &3));
}

#[test]
fn duplicate_edge_is_rejected() {
    assert!(!Solution::valid_tree(&vec![(0, 1), (1, 0)], &2));
}

#[test]
fn self_loop_is_rejected() {
    assert!(!Solution::valid_tree(&vec![(0, 0)], &1));
    assert!(!Solution::valid_tree(&vec![(0, 1), (1, 1)], &3));
}

#[test]
fn cycle_with_separate_node_is_rejected() {
    // n - 1 edges, but a triangle leaves node 3 alone.
    assert!(!Solution::valid_tree(&vec![(0, 1), (1, 2), (2, 0)], &4));
}

#[test]
fn endpoint_out_of_range_is_rejected() {
    assert!(!Solution::valid_tree(&vec![(0, 5)], &2));
    assert!(!Solution::valid_tree(&vec![(7, 0)], &2));
}

#[test]
fn root_other_than_zero_is_accepted() {
    assert!(Solution::valid_tree(&vec![(3, 2), (2, 1), (1, 0)], &4));
}

#[test]
fn star_and_chain_are_trees() {
    assert!(Solution::valid_tree(&vec![(0, 1), (0, 2), (0, 3), (0, 4)], &5));
    assert!(Solution::valid_tree(&vec![(0, 1), (1, 2), (2, 3), (3, 4)], &5));
}

#[test]
fn long_chain_is_a_tree() {
    let n: usize = 100_000;
    let edges: Vec<(usize, usize)> = (1..n).map(|i| (i - 1, i)).collect();
    assert!(Solution::valid_tree(&edges, &n));
}

#[test]
fn flipping_an_edge_keeps_the_verdict() {
    let edges = Solution::test_fixture_1();
    for i in 0..edges.len() {
        let mut flipped = edges.clone();
        flipped[i] = (edges[i].1, edges[i].0);
        assert_eq!(Solution::valid_tree(&flipped, &5), Solution::valid_tree(&edges, &5));
    }
    let cyclic = Solution::test_fixture_2();
    let mut flipped = cyclic.clone();
    flipped[3] = (3, 1);
    assert_eq!(Solution::valid_tree(&flipped, &5), false);
}

#[test]
fn same_input_gives_same_verdict() {
    let edges = Solution::test_fixture_1();
    let first = Solution::valid_tree(&edges, &5);
    let second = Solution::valid_tree(&edges, &5);
    assert_eq!(first, second);
    assert_eq!(edges, Solution::test_fixture_1());
}

#[test]
fn graph_lists_both_directions_in_edge_order() {
    let graph = build_graph(&vec![(0, 1), (2, 0), (1, 2)], 4);
    assert_eq!(graph, vec![vec![1, 2], vec![0, 2], vec![0, 1], vec![]]);
}

#[test]
fn graph_keeps_repeats_and_self_loops() {
    let graph = build_graph(&vec![(1, 0), (0, 1), (2, 2), (0, 2)], 3);
    assert_eq!(graph, vec![vec![1, 1, 2], vec![0, 0], vec![2, 2, 0]]);
}

#[test]
fn visit_marks_exactly_the_reachable_nodes() {
    let graph = build_graph(&vec![(0, 1), (2, 3), (3, 4)], 5);
    assert_eq!(visit(&graph, 0), vec![true, true, false, false, false]);
    assert_eq!(visit(&graph, 4), vec![false, false, true, true, true]);
}
