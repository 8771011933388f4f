use vstd::prelude::*;

verus! {

/// A walk along a step relation: a nonempty sequence of nodes in which each
/// node is followed by one that the relation connects it to.
pub open spec fn is_walk(step: spec_fn(int, int) -> bool, p: Seq<int>) -> bool {
    &&& p.len() > 0
    &&& forall|k: int| 0 <= k < p.len() - 1 ==> #[trigger] step(p[k], p[k + 1])
}

/// `t` can be reached from `s` by some walk.
pub open spec fn reaches(step: spec_fn(int, int) -> bool, s: int, t: int) -> bool {
    exists|p: Seq<int>| is_walk(step, p) && p[0] == s && p.last() == t
}

/// Every node reaches itself by the walk of one node.
pub proof fn lemma_reaches_self(step: spec_fn(int, int) -> bool, s: int)
    ensures
        reaches(step, s, s),
{
    let p = seq![s];
    assert(is_walk(step, p) && p[0] == s && p.last() == s);
}

/// A walk can be extended by one step at its end.
pub proof fn lemma_reaches_extend(step: spec_fn(int, int) -> bool, s: int, t: int, u: int)
    requires
        reaches(step, s, t),
        step(t, u),
    ensures
        reaches(step, s, u),
{
    let p = choose|p: Seq<int>| is_walk(step, p) && p[0] == s && p.last() == t;
    let q = p.push(u);
    assert forall|k: int| 0 <= k < q.len() - 1 implies #[trigger] step(q[k], q[k + 1]) by {
        if k < p.len() - 1 {
            assert(step(p[k], p[k + 1]));
        }
    }
    assert(is_walk(step, q) && q[0] == s && q.last() == u);
}

/// Over a symmetric relation, a walk read backwards is a walk.
pub proof fn lemma_reaches_symmetric(step: spec_fn(int, int) -> bool, s: int, t: int)
    requires
        forall|a: int, b: int| #[trigger] step(a, b) ==> step(b, a),
        reaches(step, s, t),
    ensures
        reaches(step, t, s),
{
    let p = choose|p: Seq<int>| is_walk(step, p) && p[0] == s && p.last() == t;
    let n = p.len();
    let q = Seq::new(n, |k: int| p[n - 1 - k]);
    assert forall|k: int| 0 <= k < q.len() - 1 implies #[trigger] step(q[k], q[k + 1]) by {
        let j = n - 2 - k;
        assert(step(p[j], p[j + 1]));
    }
    assert(is_walk(step, q) && q[0] == t && q.last() == s);
}

/// Two walks that meet can be joined.
pub proof fn lemma_reaches_transitive(step: spec_fn(int, int) -> bool, s: int, t: int, u: int)
    requires
        reaches(step, s, t),
        reaches(step, t, u),
    ensures
        reaches(step, s, u),
{
    let p = choose|p: Seq<int>| is_walk(step, p) && p[0] == s && p.last() == t;
    let q = choose|q: Seq<int>| is_walk(step, q) && q[0] == t && q.last() == u;
    let r = p + q.subrange(1, q.len() as int);
    assert forall|k: int| 0 <= k < r.len() - 1 implies #[trigger] step(r[k], r[k + 1]) by {
        if k < p.len() - 1 {
            assert(step(p[k], p[k + 1]));
        } else {
            let j = k - (p.len() - 1);
            assert(step(q[j], q[j + 1]));
        }
    }
    if q.len() == 1 {
        assert(r =~= p);
    }
    assert(is_walk(step, r) && r[0] == s && r.last() == u);
}

/// A set of nodes that holds the start of a walk and is closed under the
/// relation holds every node of the walk, its end included.
pub proof fn lemma_closed_holds_walk_end(
    step: spec_fn(int, int) -> bool,
    marked: spec_fn(int) -> bool,
    p: Seq<int>,
)
    requires
        is_walk(step, p),
        marked(p[0]),
        forall|a: int, b: int| marked(a) && #[trigger] step(a, b) ==> marked(b),
    ensures
        marked(p.last()),
    decreases p.len(),
{
    if p.len() > 1 {
        let q = p.drop_last();
        assert(is_walk(step, q)) by {
            assert forall|k: int| 0 <= k < q.len() - 1 implies #[trigger] step(q[k], q[k + 1]) by {
                assert(step(p[k], p[k + 1]));
            }
        }
        lemma_closed_holds_walk_end(step, marked, q);
        let k = p.len() - 2;
        assert(step(p[k], p[k + 1]));
    }
}

} // verus!
