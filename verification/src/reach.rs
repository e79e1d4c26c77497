use vstd::prelude::*;
use crate::depgraph::{Edge, ParamKey};

verus! {

/// The edge from position `i` of `p` to the next position is in `e`.
pub open spec fn step_ok(e: Set<Edge>, p: Seq<ParamKey>, i: int) -> bool {
    e.contains((p[i], p[i + 1]))
}

/// `p` is a walk in `e`: a non-empty sequence of parameters in which every
/// parameter is joined to the next by an edge.
pub open spec fn is_walk(e: Set<Edge>, p: Seq<ParamKey>) -> bool {
    &&& p.len() >= 1
    &&& forall|i: int| 0 <= i < p.len() - 1 ==> #[trigger] step_ok(e, p, i)
}

/// `b` can be reached from `a` by following zero or more edges of `e`.
pub open spec fn reaches(e: Set<Edge>, a: ParamKey, b: ParamKey) -> bool {
    exists|p: Seq<ParamKey>| #[trigger] is_walk(e, p) && p[0] == a && p.last() == b
}

/// `x` can be reached from one of `starts`.
pub open spec fn reaches_from(e: Set<Edge>, starts: Seq<ParamKey>, x: ParamKey) -> bool {
    exists|i: int| 0 <= i < starts.len() && #[trigger] reaches(e, starts[i], x)
}

/// No walk of one edge or more returns to where it began.
pub open spec fn acyclic(e: Set<Edge>) -> bool {
    forall|p: Seq<ParamKey>| #[trigger] is_walk(e, p) && p.len() >= 2 ==> p[0] != p.last()
}

/// Every edge of `e` joins two members of `n`.
pub open spec fn edges_within(e: Set<Edge>, n: Set<ParamKey>) -> bool {
    forall|a: ParamKey, b: ParamKey|
        #[trigger] e.contains((a, b)) ==> n.contains(a) && n.contains(b)
}

/// `s` contains the head of every edge whose tail it contains.
pub open spec fn closed_under(e: Set<Edge>, s: Set<ParamKey>) -> bool {
    forall|a: ParamKey, b: ParamKey|
        s.contains(a) && #[trigger] e.contains((a, b)) ==> s.contains(b)
}

/// Every parameter reaches itself.
pub proof fn lemma_reaches_self(e: Set<Edge>, a: ParamKey)
    ensures
        reaches(e, a, a),
{
    let p = seq![a];
    assert(is_walk(e, p));
    assert(p[0] == a && p.last() == a);
}

/// A walk stays a walk when an edge is appended to it.
pub proof fn lemma_walk_push(e: Set<Edge>, p: Seq<ParamKey>, c: ParamKey)
    requires
        is_walk(e, p),
        e.contains((p.last(), c)),
    ensures
        is_walk(e, p.push(c)),
        p.push(c)[0] == p[0],
        p.push(c).last() == c,
{
    let q = p.push(c);
    assert forall|i: int| 0 <= i < q.len() - 1 implies #[trigger] step_ok(e, q, i) by {
        if i < p.len() - 1 {
            assert(step_ok(e, p, i));
        }
    }
}

/// Reachability extends along an edge.
pub proof fn lemma_reaches_step(e: Set<Edge>, a: ParamKey, b: ParamKey, c: ParamKey)
    requires
        reaches(e, a, b),
        e.contains((b, c)),
    ensures
        reaches(e, a, c),
{
    let p = choose|p: Seq<ParamKey>| #[trigger] is_walk(e, p) && p[0] == a && p.last() == b;
    lemma_walk_push(e, p, c);
    assert(is_walk(e, p.push(c)));
}

/// Every position of a walk that starts inside a closed set is inside it.
pub proof fn lemma_walk_stays_inside(e: Set<Edge>, s: Set<ParamKey>, p: Seq<ParamKey>, i: int)
    requires
        closed_under(e, s),
        is_walk(e, p),
        s.contains(p[0]),
        0 <= i < p.len(),
    ensures
        s.contains(p[i]),
    decreases i,
{
    if i > 0 {
        lemma_walk_stays_inside(e, s, p, i - 1);
        assert(step_ok(e, p, i - 1));
    }
}

/// A closed set contains whatever its members reach.
pub proof fn lemma_closed_contains_reachable(e: Set<Edge>, s: Set<ParamKey>, a: ParamKey, b: ParamKey)
    requires
        closed_under(e, s),
        s.contains(a),
        reaches(e, a, b),
    ensures
        s.contains(b),
{
    let p = choose|p: Seq<ParamKey>| #[trigger] is_walk(e, p) && p[0] == a && p.last() == b;
    lemma_walk_stays_inside(e, s, p, p.len() - 1);
}

/// A walk in a graph is a walk in every graph that has more edges.
pub proof fn lemma_walk_mono(small: Set<Edge>, big: Set<Edge>, p: Seq<ParamKey>)
    requires
        small.subset_of(big),
        is_walk(small, p),
    ensures
        is_walk(big, p),
{
    assert forall|i: int| 0 <= i < p.len() - 1 implies #[trigger] step_ok(big, p, i) by {
        assert(step_ok(small, p, i));
    }
}

/// Reachability survives the addition of edges.
pub proof fn lemma_reaches_mono(small: Set<Edge>, big: Set<Edge>, a: ParamKey, b: ParamKey)
    requires
        small.subset_of(big),
        reaches(small, a, b),
    ensures
        reaches(big, a, b),
{
    let p = choose|p: Seq<ParamKey>| #[trigger] is_walk(small, p) && p[0] == a && p.last() == b;
    lemma_walk_mono(small, big, p);
}

/// Removing edges from an acyclic graph leaves it acyclic.
pub proof fn lemma_acyclic_mono(small: Set<Edge>, big: Set<Edge>)
    requires
        small.subset_of(big),
        acyclic(big),
    ensures
        acyclic(small),
{
    assert forall|p: Seq<ParamKey>| #[trigger] is_walk(small, p) && p.len() >= 2 implies p[0]
        != p.last() by {
        lemma_walk_mono(small, big, p);
    }
}

/// The graph without edges is acyclic.
pub proof fn lemma_empty_acyclic()
    ensures
        acyclic(Set::<Edge>::empty()),
{
    assert forall|p: Seq<ParamKey>| #[trigger]
        is_walk(Set::<Edge>::empty(), p) && p.len() >= 2 implies p[0] != p.last() by {
        assert(step_ok(Set::<Edge>::empty(), p, 0));
    }
}

/// `e2` is `e` with one more edge into `k` from each member of `refs`.
pub open spec fn linked(e: Set<Edge>, k: ParamKey, refs: Set<ParamKey>, e2: Set<Edge>) -> bool {
    forall|a: ParamKey, b: ParamKey| #[trigger]
        e2.contains((a, b)) <==> e.contains((a, b)) || (b == k && refs.contains(a))
}

/// Where `k` reaches none of `refs`, a walk that leaves `k` over the new
/// edges uses old edges only.
proof fn lemma_prefix_old(
    e: Set<Edge>,
    k: ParamKey,
    refs: Set<ParamKey>,
    e2: Set<Edge>,
    q: Seq<ParamKey>,
    n: int,
)
    requires
        linked(e, k, refs, e2),
        forall|r: ParamKey| refs.contains(r) ==> !reaches(e, k, r),
        is_walk(e2, q),
        q[0] == k,
        0 <= n < q.len(),
    ensures
        is_walk(e, q.subrange(0, n + 1)),
        reaches(e, k, q[n]),
    decreases n,
{
    let pre = q.subrange(0, n + 1);
    if n == 0 {
        assert(is_walk(e, pre));
    } else {
        lemma_prefix_old(e, k, refs, e2, q, n - 1);
        let pp = q.subrange(0, n);
        assert(step_ok(e2, q, n - 1));
        assert(e2.contains((q[n - 1], q[n])));
        assert(e.contains((q[n - 1], q[n])));
        assert(pp.last() == q[n - 1]);
        lemma_walk_push(e, pp, q[n]);
        assert(pp.push(q[n]) =~= pre);
    }
    assert(pre[0] == k && pre.last() == q[n]);
}

/// Adding edges into `k` from parameters that `k` does not reach keeps an
/// acyclic graph acyclic.
pub proof fn lemma_link_keeps_acyclic(e: Set<Edge>, k: ParamKey, refs: Set<ParamKey>, e2: Set<Edge>)
    requires
        acyclic(e),
        linked(e, k, refs, e2),
        forall|r: ParamKey| refs.contains(r) ==> !reaches(e, k, r),
    ensures
        acyclic(e2),
{
    assert forall|p: Seq<ParamKey>| #[trigger] is_walk(e2, p) && p.len() >= 2 implies p[0]
        != p.last() by {
        if p[0] == p.last() {
            if forall|i: int| 0 <= i < p.len() - 1 ==> #[trigger] step_ok(e, p, i) {
                assert(is_walk(e, p));
            } else {
                let i = choose|i: int| 0 <= i < p.len() - 1 && !#[trigger] step_ok(e, p, i);
                assert(step_ok(e2, p, i));
                assert(e2.contains((p[i], p[i + 1])));
                assert(p[i + 1] == k && refs.contains(p[i]));
                let len = p.len() as int;
                let q = p.subrange(i + 1, len) + p.subrange(1, i + 1);
                assert forall|j: int| 0 <= j < q.len() - 1 implies #[trigger] step_ok(e2, q, j) by {
                    if j < len - i - 2 {
                        assert(step_ok(e2, p, i + 1 + j));
                    } else if j == len - i - 2 {
                        assert(step_ok(e2, p, 0));
                    } else {
                        assert(step_ok(e2, p, j - (len - i - 1) + 1));
                    }
                }
                assert(is_walk(e2, q));
                assert(q[0] == k);
                assert(q.last() == p[i]);
                lemma_prefix_old(e, k, refs, e2, q, q.len() - 1);
                assert(false);
            }
        }
    }
}

/// In a graph whose edges join members of `n`, whatever a member reaches is a
/// member.
pub proof fn lemma_reach_within(e: Set<Edge>, n: Set<ParamKey>, a: ParamKey, b: ParamKey)
    requires
        edges_within(e, n),
        n.contains(a),
        reaches(e, a, b),
    ensures
        n.contains(b),
{
    assert(closed_under(e, n));
    lemma_closed_contains_reachable(e, n, a, b);
}

/// What is no member of `n` has no edge, and reaches nothing but itself.
pub proof fn lemma_stranger_stays(e: Set<Edge>, n: Set<ParamKey>, a: ParamKey, b: ParamKey)
    requires
        edges_within(e, n),
        !n.contains(a),
        reaches(e, a, b),
    ensures
        a == b,
{
    let p = choose|p: Seq<ParamKey>| #[trigger] is_walk(e, p) && p[0] == a && p.last() == b;
    if p.len() >= 2 {
        assert(step_ok(e, p, 0));
        assert(e.contains((p[0], p[1])));
    }
}

/// A walk that starts at `k` in an acyclic graph never comes back to `k`.
pub proof fn lemma_no_return(e: Set<Edge>, k: ParamKey, p: Seq<ParamKey>, i: int)
    requires
        acyclic(e),
        is_walk(e, p),
        p[0] == k,
        0 < i < p.len(),
    ensures
        p[i] != k,
{
    let pre = p.subrange(0, i + 1);
    assert forall|j: int| 0 <= j < pre.len() - 1 implies #[trigger] step_ok(e, pre, j) by {
        assert(step_ok(e, p, j));
    }
    assert(is_walk(e, pre));
    assert(pre[0] == k && pre.last() == p[i]);
}

/// `p` is a walk of one edge or more that ends where it begins.
pub open spec fn closed_walk(e: Set<Edge>, p: Seq<ParamKey>) -> bool {
    is_walk(e, p) && p.len() >= 2 && p[0] == p.last()
}

/// A graph with a closed walk is not acyclic.
pub proof fn lemma_closed_walk_cyclic(e: Set<Edge>, p: Seq<ParamKey>)
    requires
        closed_walk(e, p),
    ensures
        !acyclic(e),
{
}

} // verus!
