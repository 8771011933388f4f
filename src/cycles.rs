use vstd::prelude::*;
use vstd::relations::injective_on;
use vstd::set_lib::{lemma_int_range, lemma_len_subset, lemma_map_size, set_int_range};

use crate::adjacency::{edge_joins, edge_step};
use crate::validate::is_tree;
use crate::walk::{
    is_walk, reaches, lemma_closed_holds_walk_end, lemma_reaches_extend, lemma_reaches_self, lemma_reaches_symmetric,
    lemma_reaches_transitive,
};

verus! {

/// `t` is reached from `s` by a walk of exactly `k` steps.
pub open spec fn reaches_in(step: spec_fn(int, int) -> bool, s: int, t: int, k: nat) -> bool {
    exists|p: Seq<int>| is_walk(step, p) && p.len() == k + 1 && p[0] == s && p.last() == t
}

/// The number of steps of a shortest walk from `s` to `t`.
pub open spec fn distance(step: spec_fn(int, int) -> bool, s: int, t: int) -> nat {
    choose|m: nat| reaches_in(step, s, t, m) && forall|j: nat| j < m ==> !#[trigger] reaches_in(step, s, t, j)
}

/// The edge list holds a cycle: some edge joins two nodes that the other
/// edges link already. A self-loop and a repeated edge are cycles.
pub open spec fn has_cycle(edges: Seq<(usize, usize)>) -> bool {
    exists|i: int|
        0 <= i < edges.len() && #[trigger] reaches(edge_step(edges.remove(i)), edges[i].0 as int, edges[i].1 as int)
}

/// A walk of `k` steps implies a shortest one.
pub proof fn lemma_shortest_exists(step: spec_fn(int, int) -> bool, s: int, t: int, k: nat)
    requires
        reaches_in(step, s, t, k),
    ensures
        exists|m: nat| reaches_in(step, s, t, m) && forall|j: nat| j < m ==> !#[trigger] reaches_in(step, s, t, j),
    decreases k,
{
    if exists|j: nat| j < k && #[trigger] reaches_in(step, s, t, j) {
        let j = choose|j: nat| j < k && #[trigger] reaches_in(step, s, t, j);
        lemma_shortest_exists(step, s, t, j);
    }
}

/// The distance is the length of a walk, and no shorter walk exists.
pub proof fn lemma_distance(step: spec_fn(int, int) -> bool, s: int, t: int)
    requires
        reaches(step, s, t),
    ensures
        reaches_in(step, s, t, distance(step, s, t)),
        forall|j: nat| j < distance(step, s, t) ==> !#[trigger] reaches_in(step, s, t, j),
{
    let p = choose|p: Seq<int>| is_walk(step, p) && p[0] == s && p.last() == t;
    assert(reaches_in(step, s, t, (p.len() - 1) as nat));
    lemma_shortest_exists(step, s, t, (p.len() - 1) as nat);
}

/// Every reachable node other than the start has a neighbour that is strictly
/// closer to the start.
pub proof fn lemma_closer_neighbour(step: spec_fn(int, int) -> bool, s: int, v: int)
    requires
        reaches(step, s, v),
        v != s,
    ensures
        exists|w: int| #[trigger] step(w, v) && reaches(step, s, w) && distance(step, s, w) < distance(step, s, v),
{
    lemma_distance(step, s, v);
    let m = distance(step, s, v);
    let p = choose|p: Seq<int>| is_walk(step, p) && p.len() == m + 1 && p[0] == s && p.last() == v;
    assert(m > 0);
    let w = p[m - 1];
    let q = p.take(m as int);
    assert(is_walk(step, q)) by {
        assert forall|k: int| 0 <= k < q.len() - 1 implies #[trigger] step(q[k], q[k + 1]) by {
            assert(step(p[k], p[k + 1]));
        }
    }
    assert(reaches_in(step, s, w, (m - 1) as nat));
    assert(reaches(step, s, w));
    lemma_distance(step, s, w);
    assert(step(p[m - 1], p[m as int]));
}

/// Edge `k` joins `v` to a node strictly closer to `root`.
pub open spec fn hangs_by(edges: Seq<(usize, usize)>, root: int, k: int, v: int) -> bool {
    &&& 0 <= k < edges.len()
    &&& exists|w: int|
        #[trigger] edge_joins(edges, k, w, v) && distance(edge_step(edges), root, w) < distance(
            edge_step(edges),
            root,
            v,
        )
}

/// The edge by which a node other than the root hangs from a node closer to
/// the root.
pub open spec fn hanging_edge(edges: Seq<(usize, usize)>, root: int, v: int) -> int {
    choose|k: int| #[trigger] hangs_by(edges, root, k, v)
}

/// If every node of `0 .. n` is reached from node `0`, there are at least
/// `n - 1` edges.
pub proof fn lemma_reaching_all_needs_edges(edges: Seq<(usize, usize)>, n: nat)
    requires
        n >= 1,
        forall|v: int| 0 <= v < n ==> #[trigger] reaches(edge_step(edges), 0, v),
    ensures
        edges.len() + 1 >= n,
{
    let step = edge_step(edges);
    let nodes = set_int_range(1, n as int);
    let f = |v: int| hanging_edge(edges, 0, v);
    assert forall|v: int| #[trigger] nodes.contains(v) implies hangs_by(edges, 0, f(v), v) by {
        assert(reaches(step, 0, v));
        lemma_closer_neighbour(step, 0, v);
        let w = choose|w: int| #[trigger] step(w, v) && reaches(step, 0, w) && distance(step, 0, w) < distance(step, 0, v);
        let k = choose|k: int| 0 <= k < edges.len() && #[trigger] edge_joins(edges, k, w, v);
        assert(edge_joins(edges, k, w, v));
        assert(hangs_by(edges, 0, k, v));
    }
    assert(injective_on(f, nodes)) by {
        assert forall|a: int, b: int| nodes.contains(a) && nodes.contains(b) && #[trigger] f(a) == #[trigger] f(b) implies a == b by {
            assert(hangs_by(edges, 0, f(a), a) && hangs_by(edges, 0, f(b), b));
            let wa = choose|w: int| #[trigger] edge_joins(edges, f(a), w, a) && distance(step, 0, w) < distance(step, 0, a);
            let wb = choose|w: int| #[trigger] edge_joins(edges, f(b), w, b) && distance(step, 0, w) < distance(step, 0, b);
            if a != b {
                assert(a == wb && b == wa);
            }
        }
    }
    lemma_int_range(1, n as int);
    lemma_int_range(0, edges.len() as int);
    let image = nodes.map(f);
    lemma_map_size(nodes, image, f);
    assert(image.subset_of(set_int_range(0, edges.len() as int))) by {
        assert forall|k: int| #[trigger] image.contains(k) implies 0 <= k < edges.len() by {
            let v = choose|v: int| nodes.contains(v) && f(v) == k;
            assert(hangs_by(edges, 0, f(v), v));
        }
    }
    lemma_len_subset(image, set_int_range(0, edges.len() as int));
}

/// Dropping an edge that lies on a cycle keeps every walk's endpoints linked.
pub proof fn lemma_drop_cycle_edge(edges: Seq<(usize, usize)>, i: int, s: int, t: int)
    requires
        0 <= i < edges.len(),
        reaches(edge_step(edges.remove(i)), edges[i].0 as int, edges[i].1 as int),
        reaches(edge_step(edges), s, t),
    ensures
        reaches(edge_step(edges.remove(i)), s, t),
{
    let step = edge_step(edges);
    let rest = edges.remove(i);
    let narrow = edge_step(rest);
    assert forall|a: int, b: int| #[trigger] narrow(a, b) implies narrow(b, a) by {
        {
            let k = choose|k: int| 0 <= k < rest.len() && #[trigger] edge_joins(rest, k, a, b);
            assert(edge_joins(rest, k, b, a));
        }
    }
    let marked = |x: int| reaches(narrow, s, x);
    assert forall|a: int, b: int| marked(a) && #[trigger] step(a, b) implies marked(b) by {
        let k = choose|k: int| 0 <= k < edges.len() && #[trigger] edge_joins(edges, k, a, b);
        if k == i {
            if a == edges[i].0 as int {
                lemma_reaches_transitive(narrow, s, a, b);
            } else {
                lemma_reaches_symmetric(narrow, edges[i].0 as int, edges[i].1 as int);
                lemma_reaches_transitive(narrow, s, a, b);
            }
        } else {
            let j = if k < i { k } else { k - 1 };
            assert(rest[j] == edges[k]);
            assert(edge_joins(rest, j, a, b));
            lemma_reaches_self(narrow, a);
            lemma_reaches_extend(narrow, a, a, b);
            lemma_reaches_transitive(narrow, s, a, b);
        }
    }
    lemma_reaches_self(narrow, s);
    let p = choose|p: Seq<int>| is_walk(step, p) && p[0] == s && p.last() == t;
    lemma_closed_holds_walk_end(step, marked, p);
}

/// An edge list that holds a cycle is never a tree.
pub proof fn lemma_cycle_rejected(edges: Seq<(usize, usize)>, n: nat)
    requires
        has_cycle(edges),
    ensures
        !is_tree(edges, n),
{
    if is_tree(edges, n) {
        let i = choose|i: int|
            0 <= i < edges.len() && #[trigger] reaches(edge_step(edges.remove(i)), edges[i].0 as int, edges[i].1 as int);
        let rest = edges.remove(i);
        assert forall|v: int| 0 <= v < n implies #[trigger] reaches(edge_step(rest), 0, v) by {
            assert(reaches(edge_step(edges), 0, v));
            lemma_drop_cycle_edge(edges, i, 0, v);
        }
        lemma_reaching_all_needs_edges(rest, n);
    }
}

} // verus!
