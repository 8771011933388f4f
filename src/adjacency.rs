use vstd::prelude::*;

use crate::walk::{is_walk, reaches, lemma_closed_holds_walk_end, lemma_reaches_extend, lemma_reaches_self};

verus! {

/// Edge `i` of the list joins `u` and `v`, in either orientation.
pub open spec fn edge_joins(edges: Seq<(usize, usize)>, i: int, u: int, v: int) -> bool {
    ||| (edges[i].0 == u && edges[i].1 == v)
    ||| (edges[i].0 == v && edges[i].1 == u)
}

/// Some edge of the list joins `u` and `v`.
pub open spec fn joined(edges: Seq<(usize, usize)>, u: int, v: int) -> bool {
    exists|i: int| 0 <= i < edges.len() && #[trigger] edge_joins(edges, i, u, v)
}

/// The undirected neighbour relation that an edge list describes.
pub open spec fn edge_step(edges: Seq<(usize, usize)>) -> spec_fn(int, int) -> bool {
    |u: int, v: int| joined(edges, u, v)
}

/// `v` stands in the neighbour list of `u`.
pub open spec fn lists(graph: Seq<Vec<usize>>, u: int, v: int) -> bool {
    0 <= u < graph.len() && exists|j: int| 0 <= j < graph[u]@.len() && #[trigger] graph[u]@[j] == v
}

/// The neighbour relation that adjacency lists describe.
pub open spec fn graph_step(graph: Seq<Vec<usize>>) -> spec_fn(int, int) -> bool {
    |u: int, v: int| lists(graph, u, v)
}

/// Every neighbour named in the lists is a node of the graph.
pub open spec fn well_formed(graph: Seq<Vec<usize>>) -> bool {
    forall|u: int, j: int|
        0 <= u < graph.len() && 0 <= j < graph[u]@.len() ==> #[trigger] graph[u]@[j] < graph.len()
}

/// Every endpoint of every edge is one of the nodes `0 .. n`.
pub open spec fn in_range(edges: Seq<(usize, usize)>, n: nat) -> bool {
    forall|i: int| 0 <= i < edges.len() ==> #[trigger] edges[i].0 < n && edges[i].1 < n
}

/// The neighbour list of `u` that the edges give, in edge order: for each
/// edge `(a, b)`, `b` if `a` is `u`, then `a` if `b` is `u`. A self-loop on `u`
/// puts `u` in twice.
pub open spec fn neighbours(edges: Seq<(usize, usize)>, u: int) -> Seq<usize>
    decreases edges.len(),
{
    if edges.len() == 0 {
        Seq::empty()
    } else {
        let earlier = neighbours(edges.drop_last(), u);
        let (a, b) = edges.last();
        let first = if a as int == u {
            earlier.push(b)
        } else {
            earlier
        };
        if b as int == u {
            first.push(a)
        } else {
            first
        }
    }
}

/// Builds adjacency lists over the nodes `0 .. n`: edge `(u, v)` puts `v`
/// into the list of `u` and `u` into the list of `v`, in the order of the
/// edges.
pub fn build_graph(list: &Vec<(usize, usize)>, n: usize) -> (graph: Vec<Vec<usize>>)
    requires
        in_range(list@, n as nat),
    ensures
        graph@.len() == n,
        forall|u: int| 0 <= u < n ==> (#[trigger] graph@[u])@ == neighbours(list@, u),
        well_formed(graph@),
        graph_step(graph@) == edge_step(list@),
{
    let mut graph: Vec<Vec<usize>> = Vec::new();
    let mut k: usize = 0;
    while k < n
        invariant
            k <= n,
            graph@.len() == k,
            forall|u: int| 0 <= u < k ==> (#[trigger] graph@[u])@.len() == 0,
        decreases n - k,
    {
        graph.push(Vec::new());
        k = k + 1;
    }
    let mut i: usize = 0;
    while i < list.len()
        invariant
            in_range(list@, n as nat),
            i <= list@.len(),
            graph@.len() == n,
            forall|u: int| 0 <= u < n ==> (#[trigger] graph@[u])@ == neighbours(list@.take(i as int), u),
            well_formed(graph@),
            forall|u: int, v: int|
                #[trigger] lists(graph@, u, v) <==> joined(list@.take(i as int), u, v),
        decreases list@.len() - i,
    {
        let (src, dst) = list[i];
        assert(src < n && dst < n) by {
            assert(list@[i as int].0 < n && list@[i as int].1 < n);
        }
        let ghost before = graph@;
        graph[src].push(dst);
        let ghost middle = graph@;
        graph[dst].push(src);
        let ghost after = graph@;
        assert(well_formed(after)) by {
            assert forall|u: int, j: int|
                0 <= u < after.len() && 0 <= j < after[u]@.len() implies #[trigger] after[u]@[j]
                < after.len() by {
                if u != dst as int || j < middle[u]@.len() {
                    if u != src as int || j < before[u]@.len() {
                        assert(before[u]@[j] == after[u]@[j]);
                    }
                }
            }
        }
        let ghost prev = list@.take(i as int);
        let ghost next = list@.take(i + 1);
        assert(next.drop_last() =~= prev);
        assert(next.last() == (src, dst));
        assert forall|u: int| 0 <= u < n implies (#[trigger] after[u])@ == neighbours(next, u) by {
            assert(before[u]@ == neighbours(prev, u));
        }
        assert forall|u: int, v: int| #[trigger] lists(after, u, v) <==> joined(next, u, v) by {
            if lists(after, u, v) {
                let j = choose|j: int| 0 <= j < after[u]@.len() && #[trigger] after[u]@[j] == v;
                if u == dst as int && j == middle[u]@.len() {
                    assert(edge_joins(next, i as int, u, v));
                } else if u == src as int && j == before[u]@.len() {
                    assert(edge_joins(next, i as int, u, v));
                } else {
                    assert(before[u]@[j] == v);
                    assert(lists(before, u, v));
                    let e = choose|e: int| 0 <= e < prev.len() && #[trigger] edge_joins(prev, e, u, v);
                    assert(edge_joins(next, e, u, v));
                }
            }
            if joined(next, u, v) {
                let e = choose|e: int| 0 <= e < next.len() && #[trigger] edge_joins(next, e, u, v);
                if e == i as int {
                    if u == src as int && v == dst as int {
                        assert(after[u]@[middle[u]@.len() - 1] == v);
                    } else {
                        assert(after[u]@[after[u]@.len() - 1] == v);
                    }
                } else {
                    assert(edge_joins(prev, e, u, v));
                    assert(lists(before, u, v));
                    let j = choose|j: int| 0 <= j < before[u]@.len() && #[trigger] before[u]@[j] == v;
                    assert(after[u]@[j] == v);
                }
            }
        }
        i = i + 1;
    }
    assert(list@.take(list@.len() as int) =~= list@);
    assert forall|u: int| 0 <= u < n implies (#[trigger] graph@[u])@ == neighbours(list@, u) by {
        assert(graph@[u]@ == neighbours(list@.take(i as int), u));
    }
    assert(graph_step(graph@) =~= edge_step(list@));
    graph
}

/// How many nodes are still unmarked.
pub open spec fn unmarked(marks: Seq<bool>) -> nat
    decreases marks.len(),
{
    if marks.len() == 0 {
        0
    } else {
        unmarked(marks.drop_last()) + if marks.last() {
            0nat
        } else {
            1nat
        }
    }
}

/// Marking an unmarked node leaves one fewer unmarked.
pub proof fn lemma_mark_one(marks: Seq<bool>, i: int)
    requires
        0 <= i < marks.len(),
        !marks[i],
    ensures
        unmarked(marks.update(i, true)) + 1 == unmarked(marks),
    decreases marks.len(),
{
    let m = marks.update(i, true);
    if i < marks.len() - 1 {
        assert(m.drop_last() =~= marks.drop_last().update(i, true));
        lemma_mark_one(marks.drop_last(), i);
    } else {
        assert(m.drop_last() =~= marks.drop_last());
    }
}

/// Depth-first traversal from `root` with an explicit stack: marks every node
/// that a walk from `root` reaches, and no other.
pub fn visit(graph: &Vec<Vec<usize>>, root: usize) -> (seen: Vec<bool>)
    requires
        root < graph@.len(),
        well_formed(graph@),
    ensures
        seen@.len() == graph@.len(),
        forall|v: int|
            0 <= v < graph@.len() ==> (#[trigger] seen@[v] <==> reaches(graph_step(graph@), root as int, v)),
{
    let ghost step = graph_step(graph@);
    let n = graph.len();
    let mut seen: Vec<bool> = Vec::new();
    let mut k: usize = 0;
    while k < n
        invariant
            k <= n,
            seen@.len() == k,
            forall|u: int| 0 <= u < k ==> !(#[trigger] seen@[u]),
        decreases n - k,
    {
        seen.push(false);
        k = k + 1;
    }
    let mut stack: Vec<usize> = Vec::new();
    seen.set(root, true);
    stack.push(root);
    proof {
        lemma_reaches_self(step, root as int);
        assert(stack@[0] == root);
        assert forall|u: int| 0 <= u < n && seen@[u] implies u == root as int && stack@.contains(u as usize) by {
        }
    }
    while stack.len() > 0
        invariant
            n == graph@.len(),
            well_formed(graph@),
            step == graph_step(graph@),
            seen@.len() == n,
            root < n,
            seen@[root as int],
            forall|s: int| 0 <= s < stack@.len() ==> #[trigger] stack@[s] < n && seen@[stack@[s] as int],
            forall|v: int| 0 <= v < n && #[trigger] seen@[v] ==> reaches(step, root as int, v),
            forall|u: int, j: int|
                0 <= u < n && seen@[u] && !stack@.contains(u as usize) && 0 <= j < graph@[u]@.len()
                    ==> seen@[#[trigger] graph@[u]@[j] as int],
        decreases 2 * unmarked(seen@) + stack@.len(),
    {
        let ghost whole = stack@;
        let cur = stack.pop().unwrap();
        proof {
            assert(whole =~= stack@.push(cur));
            assert forall|x: usize| x != cur && !stack@.contains(x) implies !#[trigger] whole.contains(x) by {
                if whole.contains(x) {
                    let s = choose|s: int| 0 <= s < whole.len() && whole[s] == x;
                    if s < stack@.len() {
                        assert(stack@[s] == x);
                    }
                }
            }
        }
        let ghost measure = 2 * unmarked(seen@) + stack@.len() + 1;
        let ghost popped = stack@;
        let neighbours = &graph[cur];
        let mut j: usize = 0;
        while j < neighbours.len()
            invariant
                n == graph@.len(),
                well_formed(graph@),
                step == graph_step(graph@),
                seen@.len() == n,
                cur < n,
                root < n,
                seen@[root as int],
                seen@[cur as int],
                neighbours@ == graph@[cur as int]@,
                j <= neighbours@.len(),
                2 * unmarked(seen@) + stack@.len() < measure,
                forall|s: int| 0 <= s < popped.len() ==> stack@[s] == #[trigger] popped[s],
                popped.len() <= stack@.len(),
                forall|s: int| 0 <= s < stack@.len() ==> #[trigger] stack@[s] < n && seen@[stack@[s] as int],
                forall|v: int| 0 <= v < n && #[trigger] seen@[v] ==> reaches(step, root as int, v),
                forall|t: int| 0 <= t < j ==> seen@[#[trigger] neighbours@[t] as int],
                forall|u: int, i: int|
                    0 <= u < n && u != cur && seen@[u] && !stack@.contains(u as usize) && 0 <= i
                        < graph@[u]@.len() ==> seen@[#[trigger] graph@[u]@[i] as int],
            decreases neighbours@.len() - j,
        {
            let next = neighbours[j];
            assert(next < n) by {
                assert(graph@[cur as int]@[j as int] < n);
            }
            if !seen[next] {
                proof {
                    lemma_mark_one(seen@, next as int);
                    assert(lists(graph@, cur as int, next as int));
                    lemma_reaches_extend(step, root as int, cur as int, next as int);
                }
                let ghost prior = stack@;
                seen.set(next, true);
                stack.push(next);
                assert forall|u: int, i: int|
                    0 <= u < n && u != cur && seen@[u] && !stack@.contains(u as usize) && 0 <= i
                        < graph@[u]@.len() implies seen@[#[trigger] graph@[u]@[i] as int] by {
                    if u != next as int {
                        assert forall|s: int| 0 <= s < prior.len() implies prior[s] != u as usize by {
                            assert(stack@[s] == prior[s]);
                        }
                    } else {
                        assert(stack@[stack@.len() - 1] == next);
                    }
                }
            }
            j = j + 1;
        }
    }
    assert forall|a: int, b: int| #[trigger] step(a, b) && seen@[a] implies seen@[b] by {
        let i = choose|i: int| 0 <= i < graph@[a]@.len() && #[trigger] graph@[a]@[i] == b;
        assert(seen@[graph@[a]@[i] as int]);
    }
    assert forall|v: int| 0 <= v < n && reaches(step, root as int, v) implies #[trigger] seen@[v] by {
        let p = choose|p: Seq<int>| is_walk(step, p) && p[0] == root as int && p.last() == v;
        let marked = |x: int| 0 <= x < n && seen@[x];
        assert forall|a: int, b: int| marked(a) && #[trigger] step(a, b) implies marked(b) by {
            let i = choose|i: int| 0 <= i < graph@[a]@.len() && #[trigger] graph@[a]@[i] == b;
            assert(graph@[a]@[i] < n);
        }
        lemma_closed_holds_walk_end(step, marked, p);
    }
    seen
}

} // verus!
