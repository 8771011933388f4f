use vstd::prelude::*;

use crate::adjacency::{build_graph, edge_joins, edge_step, graph_step, in_range, joined, visit};
use crate::cycles::{has_cycle, lemma_cycle_rejected};
use crate::walk::{reaches, lemma_reaches_symmetric, lemma_reaches_transitive};

verus! {

/// Any two of the nodes `0 .. n` are linked by a walk along the edges.
pub open spec fn connected(edges: Seq<(usize, usize)>, n: nat) -> bool {
    forall|u: int, v: int| 0 <= u < n && 0 <= v < n ==> #[trigger] reaches(edge_step(edges), u, v)
}

/// The edges form a tree over the nodes `0 .. n`: every endpoint is one of
/// those nodes, there are exactly `n - 1` edges (none when `n` is 0), and the
/// graph is connected.
/// Such a list never holds a cycle (`lemma_cycle_rejected`); a repeated edge
/// or a self-loop counts as one.
pub open spec fn is_tree(edges: Seq<(usize, usize)>, n: nat) -> bool {
    &&& in_range(edges, n)
    &&& (edges.len() + 1 == n || (n == 0 && edges.len() == 0))
    &&& connected(edges, n)
}

/// The neighbour relation of an edge list is symmetric.
pub proof fn lemma_edge_step_symmetric(edges: Seq<(usize, usize)>)
    ensures
        forall|a: int, b: int| #[trigger] edge_step(edges)(a, b) ==> edge_step(edges)(b, a),
{
    assert forall|a: int, b: int| #[trigger] edge_step(edges)(a, b) implies edge_step(edges)(b, a) by {
        let i = choose|i: int| 0 <= i < edges.len() && #[trigger] edge_joins(edges, i, a, b);
        assert(edge_joins(edges, i, b, a));
    }
}

/// When every node is reached from one root, the graph is connected.
pub proof fn lemma_connected_from_root(edges: Seq<(usize, usize)>, n: nat, root: int)
    requires
        0 <= root < n,
        forall|v: int| 0 <= v < n ==> #[trigger] reaches(edge_step(edges), root, v),
    ensures
        connected(edges, n),
{
    let step = edge_step(edges);
    lemma_edge_step_symmetric(edges);
    assert forall|u: int, v: int| 0 <= u < n && 0 <= v < n implies #[trigger] reaches(step, u, v) by {
        assert(reaches(step, root, u));
        lemma_reaches_symmetric(step, root, u);
        assert(reaches(step, root, v));
        lemma_reaches_transitive(step, u, root, v);
    }
}

/// Every edge list whose edges form a tree over `0 .. n` is accepted.
pub proof fn lemma_tree_accepted(edges: Seq<(usize, usize)>, n: nat)
    requires
        in_range(edges, n),
        edges.len() + 1 == n,
        connected(edges, n),
    ensures
        is_tree(edges, n),
{
}

/// An edge list that leaves some node unreachable from the root (the first
/// endpoint of the first edge) is rejected.
pub proof fn lemma_disconnected_rejected(edges: Seq<(usize, usize)>, n: nat, v: int)
    requires
        edges.len() > 0,
        0 <= v < n,
        !reaches(edge_step(edges), edges[0].0 as int, v),
    ensures
        !is_tree(edges, n),
{
    if is_tree(edges, n) {
        assert(edges[0].0 < n);
        assert(reaches(edge_step(edges), edges[0].0 as int, v));
    }
}

/// The verdict is a function of the edge list and the node count alone: the
/// same input gives the same verdict.
pub proof fn lemma_same_input_same_verdict(
    first: Seq<(usize, usize)>,
    second: Seq<(usize, usize)>,
    n: nat,
)
    requires
        first == second,
    ensures
        is_tree(first, n) == is_tree(second, n),
{
}

/// Writing an edge `(u, v)` as `(v, u)` changes neither the neighbour relation
/// nor the verdict.
pub proof fn lemma_orientation_irrelevant(edges: Seq<(usize, usize)>, n: nat, i: int)
    requires
        0 <= i < edges.len(),
    ensures
        edge_step(edges.update(i, (edges[i].1, edges[i].0))) == edge_step(edges),
        is_tree(edges.update(i, (edges[i].1, edges[i].0)), n) == is_tree(edges, n),
{
    let flipped = edges.update(i, (edges[i].1, edges[i].0));
    assert forall|a: int, b: int| #[trigger] joined(flipped, a, b) <==> joined(edges, a, b) by {
        if joined(flipped, a, b) {
            let k = choose|k: int| 0 <= k < flipped.len() && #[trigger] edge_joins(flipped, k, a, b);
            assert(edge_joins(edges, k, a, b));
        }
        if joined(edges, a, b) {
            let k = choose|k: int| 0 <= k < edges.len() && #[trigger] edge_joins(edges, k, a, b);
            assert(edge_joins(flipped, k, a, b));
        }
    }
    assert(edge_step(flipped) =~= edge_step(edges));
    assert(in_range(flipped, n) == in_range(edges, n)) by {
        if in_range(edges, n) {
            assert forall|k: int| 0 <= k < flipped.len() implies #[trigger] flipped[k].0 < n
                && flipped[k].1 < n by {
                assert(edges[k].0 < n && edges[k].1 < n);
            }
        }
        if in_range(flipped, n) {
            assert forall|k: int| 0 <= k < edges.len() implies #[trigger] edges[k].0 < n
                && edges[k].1 < n by {
                assert(flipped[k].0 < n && flipped[k].1 < n);
            }
        }
    }
}

/// Holder of the tree check and of two sample edge lists.
#[derive(Debug, PartialEq)]
pub struct Solution {}

impl Solution {
    /// Whether `list`, read as undirected edges, forms a tree over the nodes
    /// `0 .. n`. An endpoint outside that range, an edge count other than
    /// `n - 1`, or a node that the traversal from the root does not reach
    /// gives `false`. With no edges, a single node or no node at all is a tree. A list that holds
    /// a cycle is rejected.
    pub fn valid_tree(list: &Vec<(usize, usize)>, n: &usize) -> (r: bool)
        ensures
            r == is_tree(list@, *n as nat),
            has_cycle(list@) ==> !r,
    {
        let count = *n;
        let mut i: usize = 0;
        while i < list.len()
            invariant
                count == *n,
                i <= list@.len(),
                forall|k: int| 0 <= k < i ==> #[trigger] list@[k].0 < count && list@[k].1 < count,
            decreases list@.len() - i,
        {
            let (src, dst) = list[i];
            if src >= count || dst >= count {
                assert(!in_range(list@, count as nat)) by {
                    assert(!(list@[i as int].0 < count && list@[i as int].1 < count));
                }
                return false;
            }
            i = i + 1;
        }
        assert(in_range(list@, count as nat));
        if count == 0 {
            assert(list@.len() > 0 ==> list@[0].0 < count);
            return list.len() == 0;
        }
        if list.len() != count - 1 {
            return false;
        }
        let root = if list.len() > 0 {
            list[0].0
        } else {
            0
        };
        assert(root < count) by {
            if list@.len() > 0 {
                assert(list@[0].0 < count);
            }
        }
        let graph = build_graph(list, count);
        let seen = visit(&graph, root);
        let ghost step = edge_step(list@);
        assert(graph_step(graph@) == step);
        let mut v: usize = 0;
        while v < count
            invariant
                count == *n,
                count == seen@.len(),
                step == edge_step(list@),
                root < count,
                v <= count,
                forall|w: int|
                    0 <= w < count ==> (#[trigger] seen@[w] <==> reaches(step, root as int, w)),
                forall|w: int| 0 <= w < v ==> #[trigger] reaches(step, root as int, w),
            decreases count - v,
        {
            if !seen[v] {
                assert(!connected(list@, count as nat)) by {
                    assert(!reaches(step, root as int, v as int));
                }
                return false;
            }
            v = v + 1;
        }
        proof {
            lemma_connected_from_root(list@, count as nat, root as int);
            if has_cycle(list@) {
                lemma_cycle_rejected(list@, *n as nat);
            }
        }
        true
    }

    /// A tree over five nodes: `0` joined to `1`, `2` and `3`, and `1` to `4`.
    pub fn test_fixture_1() -> (r: Vec<(usize, usize)>)
        ensures
            r@ == seq![(0usize, 1usize), (0, 2), (0, 3), (1, 4)],
    {
        let r = vec![(0, 1), (0, 2), (0, 3), (1, 4)];
        assert(r@ =~= seq![(0usize, 1usize), (0, 2), (0, 3), (1, 4)]);
        r
    }

    /// Five edges over five nodes, with the cycle `1 - 2 - 3 - 1`.
    pub fn test_fixture_2() -> (r: Vec<(usize, usize)>)
        ensures
            r@ == seq![(0usize, 1usize), (1, 2), (2, 3), (1, 3), (1, 4)],
    {
        let r = vec![(0, 1), (1, 2), (2, 3), (1, 3), (1, 4)];
        assert(r@ =~= seq![(0usize, 1usize), (1, 2), (2, 3), (1, 3), (1, 4)]);
        r
    }
}

} // verus!
