use std::collections::HashSet;
use vstd::prelude::*;
use crate::depgraph::{
    graph_edges, graph_nodes, graph_predecessors, graph_successors, Depgraph,
    Edge, ParamKey,
};
use crate::reach::{
    closed_under, edges_within, is_walk, lemma_closed_contains_reachable, lemma_reaches_self,
    lemma_reaches_step, reaches, reaches_from, step_ok,
};

verus! {

/// Tells whether `k` occurs in `v`.
pub fn key_in(v: &Vec<ParamKey>, k: ParamKey) -> (found: bool)
    ensures
        found == v@.contains(k),
{
    let mut i: usize = 0;
    while i < v.len()
        invariant
            i <= v.len(),
            forall|j: int| 0 <= j < i ==> v@[j] != k,
        decreases v.len() - i,
    {
        if v[i].0 == k.0 && v[i].1 == k.1 {
            return true;
        }
        i += 1;
    }
    false
}

/// Finds the position of `k` in `v`.
pub fn position_of(v: &Vec<ParamKey>, k: ParamKey) -> (at: Option<usize>)
    ensures
        match at {
            Some(i) => i < v@.len() && v@[i as int] == k,
            None => !v@.contains(k),
        },
{
    let mut i: usize = 0;
    while i < v.len()
        invariant
            i <= v.len(),
            forall|j: int| 0 <= j < i ==> v@[j] != k,
        decreases v.len() - i,
    {
        if v[i].0 == k.0 && v[i].1 == k.1 {
            return Some(i);
        }
        i += 1;
    }
    None
}

/// A sequence without repetition whose members all lie in a finite set is no
/// longer than the set is large.
pub proof fn lemma_distinct_len_bound(s: Seq<ParamKey>, n: Set<ParamKey>)
    requires
        n.finite(),
        s.no_duplicates(),
        forall|i: int| 0 <= i < s.len() ==> n.contains(#[trigger] s[i]),
    ensures
        s.len() <= n.len(),
{
    s.unique_seq_to_set();
    assert(s.to_set().subset_of(n)) by {
        assert forall|x: ParamKey| s.to_set().contains(x) implies n.contains(x) by {
            let i = choose|i: int| 0 <= i < s.len() && s[i] == x;
            assert(n.contains(s[i]));
        }
    }
    vstd::set_lib::lemma_len_subset(s.to_set(), n);
}

/// The number that stands for a key in the set of keys already seen: the
/// node key in the upper half, the index in the lower.
pub open spec fn packed(k: ParamKey) -> u128 {
    (k.0 as u128 * 0x1_0000_0000_0000_0000 + k.1 as u128) as u128
}

/// Different keys are stood for by different numbers.
pub proof fn lemma_packed_apart(a: ParamKey, b: ParamKey)
    requires
        packed(a) == packed(b),
    ensures
        a == b,
{
    let c = 0x1_0000_0000_0000_0000int;
    let x = a.0 as int * c + a.1 as int;
    let y = b.0 as int * c + b.1 as int;
    assert(0 <= a.1 < c && 0 <= b.1 < c);
    assert(x == y);
    if a.0 < b.0 {
        assert(x <= a.0 * c + (c - 1));
        assert(y >= (a.0 + 1) * c);
    } else if b.0 < a.0 {
        assert(y <= b.0 * c + (c - 1));
        assert(x >= (b.0 + 1) * c);
    }
}

/// Computes the number that stands for a key.
fn pack(k: ParamKey) -> (code: u128)
    ensures
        code == packed(k),
{
    k.0 as u128 * 0x1_0000_0000_0000_0000 + k.1 as u128
}

/// `seen` holds the numbers of exactly the members of `out`.
pub open spec fn seen_all(seen: Set<u128>, out: Seq<ParamKey>) -> bool {
    forall|x: ParamKey| #[trigger] seen.contains(packed(x)) <==> out.contains(x)
}

/// The edges of `e`, each turned round where `backward` is set.
pub open spec fn oriented(e: Set<Edge>, backward: bool) -> Set<Edge> {
    if backward {
        Set::new(|x: Edge| e.contains((x.1, x.0)))
    } else {
        e
    }
}

/// Collects every parameter that can be reached from one of `starts` by
/// following dependency edges forward, the starts included. Each is listed
/// once, in breadth-first order.
pub(crate) fn forward_closure(g: &Depgraph, starts: &Vec<ParamKey>) -> (out: Vec<ParamKey>)
    requires
        graph_nodes(*g).finite(),
        edges_within(graph_edges(*g), graph_nodes(*g)),
    ensures
        out@.no_duplicates(),
        forall|x: ParamKey| out@.contains(x) <==> reaches_from(graph_edges(*g), starts@, x),
{
    closure(g, starts, false).0
}

/// Collects every parameter from which one of `starts` can be reached by
/// following dependency edges forward, the starts included: what the starts
/// depend on, directly or through other parameters. Each is listed once, the
/// starts first, then what they depend on directly, and so on.
pub(crate) fn backward_closure(g: &Depgraph, starts: &Vec<ParamKey>) -> (out: Vec<ParamKey>)
    requires
        graph_nodes(*g).finite(),
        edges_within(graph_edges(*g), graph_nodes(*g)),
    ensures
        out@.no_duplicates(),
        forall|x: ParamKey|
            out@.contains(x) <==> reaches_from(oriented(graph_edges(*g), true), starts@, x),
        forall|i: int|
            0 <= i < out@.len() ==> graph_nodes(*g).contains(#[trigger] out@[i]) || starts@.contains(out@[i]),
{
    closure(g, starts, true).0
}

/// `via` tells for each member of `out` how it was reached: a start stands
/// for itself, any other member names an earlier member from which an edge
/// of `e` leads to it.
pub open spec fn traced(e: Set<Edge>, starts: Seq<ParamKey>, out: Seq<ParamKey>, via: Seq<usize>) -> bool {
    &&& via.len() == out.len()
    &&& forall|j: int|
        0 <= j < out.len() ==> {
            &&& (#[trigger] via[j]) <= j
            &&& via[j] == j ==> starts.contains(out[j])
            &&& via[j] < j ==> e.contains((out[via[j] as int], out[j]))
        }
}

/// Collects every parameter that can be reached from one of `starts` by
/// following dependency edges forward, as `forward_closure` does, and tells
/// for each how it was reached.
pub(crate) fn forward_paths(g: &Depgraph, starts: &Vec<ParamKey>) -> (res: (Vec<ParamKey>, Vec<usize>))
    requires
        graph_nodes(*g).finite(),
        edges_within(graph_edges(*g), graph_nodes(*g)),
    ensures
        res.0@.no_duplicates(),
        forall|x: ParamKey| res.0@.contains(x) <==> reaches_from(graph_edges(*g), starts@, x),
        traced(graph_edges(*g), starts@, res.0@, res.1@),
{
    closure(g, starts, false)
}

/// Follows the record of a search back from the member at `at` to a start,
/// and returns the walk from that start to the member.
pub(crate) fn trace(out: &Vec<ParamKey>, via: &Vec<usize>, at: usize, Ghost(e): Ghost<Set<Edge>>, Ghost(starts): Ghost<
    Seq<ParamKey>,
>) -> (walk: Vec<ParamKey>)
    requires
        traced(e, starts, out@, via@),
        at < out.len(),
    ensures
        is_walk(e, walk@),
        starts.contains(walk@[0]),
        walk@.last() == out@[at as int],
{
    let mut back: Vec<ParamKey> = Vec::new();
    let mut cur = at;
    back.push(out[cur]);
    while via[cur] != cur
        invariant
            traced(e, starts, out@, via@),
            cur < out.len(),
            at < out.len(),
            back@.len() >= 1,
            back@[0] == out@[at as int],
            back@.last() == out@[cur as int],
            forall|j: int|
                0 <= j < back@.len() - 1 ==> e.contains((#[trigger] back@[j + 1], back@[j])),
        decreases cur,
    {
        let ghost prev = back@;
        let next = via[cur];
        assert(via@[cur as int] < cur);
        assert(e.contains((out@[next as int], out@[cur as int])));
        cur = next;
        back.push(out[cur]);
        assert forall|j: int|
            0 <= j < back@.len() - 1
            implies e.contains((#[trigger] back@[j + 1], back@[j])) by {
            if j < prev.len() - 1 {
                assert(e.contains((prev[j + 1], prev[j])));
            }
        }
    }
    assert(via@[cur as int] == cur);
    let mut walk: Vec<ParamKey> = Vec::new();
    let mut i: usize = back.len();
    while i > 0
        invariant
            i <= back.len(),
            walk@.len() == back@.len() - i,
            forall|j: int| 0 <= j < walk@.len() ==> walk@[j] == back@[back@.len() - 1 - j],
        decreases i,
    {
        i -= 1;
        walk.push(back[i]);
    }
    proof {
        assert forall|j: int| 0 <= j < walk@.len() - 1 implies #[trigger] step_ok(e, walk@, j) by {
            let m = back@.len() - 2 - j;
            assert(e.contains((back@[m + 1], back@[m])));
        }
    }
    walk
}

/// Collects every parameter that can be reached from one of `starts` along
/// the edges of the graph, taken forward or backward, and tells for each
/// how it was reached.
fn closure(g: &Depgraph, starts: &Vec<ParamKey>, backward: bool) -> (res: (Vec<ParamKey>, Vec<usize>))
    requires
        graph_nodes(*g).finite(),
        edges_within(graph_edges(*g), graph_nodes(*g)),
    ensures
        res.0@.no_duplicates(),
        forall|x: ParamKey|
            res.0@.contains(x) <==> reaches_from(oriented(graph_edges(*g), backward), starts@, x),
        forall|i: int|
            0 <= i < res.0@.len() ==> graph_nodes(*g).contains(#[trigger] res.0@[i]) || starts@.contains(
                res.0@[i],
            ),
        traced(oriented(graph_edges(*g), backward), starts@, res.0@, res.1@),
{
    let ghost e = oriented(graph_edges(*g), backward);
    let ghost n = graph_nodes(*g);
    assert(edges_within(e, n)) by {
        assert forall|a: ParamKey, b: ParamKey|
            #[trigger] e.contains((a, b))
            implies n.contains(a) && n.contains(b) by {
            if backward {
                assert(graph_edges(*g).contains((b, a)));
            }
        }
    }
    broadcast use vstd::std_specs::hash::group_hash_axioms;

    let ghost m = n.union(starts@.to_set());
    proof {
        vstd::seq_lib::seq_to_set_is_finite(starts@);
        vstd::set_lib::lemma_set_union_finite_iff(n, starts@.to_set());
    }
    let mut out: Vec<ParamKey> = Vec::new();
    let mut via: Vec<usize> = Vec::new();
    let mut seen: HashSet<u128> = HashSet::new();
    let mut s: usize = 0;
    while s < starts.len()
        invariant
            s <= starts.len(),
            e == oriented(graph_edges(*g), backward),
            n == graph_nodes(*g),
            m == n.union(starts@.to_set()),
            out@.no_duplicates(),
            traced(e, starts@, out@, via@),
            seen_all(seen@, out@),
            forall|i: int| 0 <= i < out.len() ==> m.contains(#[trigger] out@[i]),
            forall|i: int| 0 <= i < s ==> out@.contains(#[trigger] starts[i]),
            forall|x: ParamKey| out@.contains(x) ==> reaches_from(e, starts@, x),
        decreases starts.len() - s,
    {
        let k = starts[s];
        proof {
            lemma_reaches_self(e, k);
            assert(reaches(e, starts@[s as int], k));
        }
        if !seen.contains(&pack(k)) {
            let ghost before = out@;
            let ghost paths = via@;
            let ghost marks = seen@;
            via.push(out.len());
            out.push(k);
            seen.insert(pack(k));
            assert(seen_all(seen@, out@)) by {
                assert forall|x: ParamKey|
                    #[trigger] seen@.contains(packed(x)) <==> out@.contains(x) by {
                    if packed(x) == packed(k) {
                        lemma_packed_apart(x, k);
                        assert(out@[before.len() as int] == k);
                    } else {
                        assert(marks.contains(packed(x)) <==> before.contains(x));
                        if before.contains(x) {
                            let j = choose|j: int| 0 <= j < before.len() && before[j] == x;
                            assert(out@[j] == x);
                        }
                        if out@.contains(x) {
                            let j = choose|j: int| 0 <= j < out@.len() && out@[j] == x;
                            assert(before[j] == x);
                        }
                    }
                }
            }
            assert(traced(e, starts@, out@, via@)) by {
                assert(starts@[s as int] == k);
                assert forall|j: int| 0 <= j < out@.len() implies {
                    &&& (#[trigger] via@[j]) <= j
                    &&& via@[j] == j ==> starts@.contains(out@[j])
                    &&& via@[j] < j ==> e.contains((out@[via@[j] as int], out@[j]))
                } by {
                    if j < before.len() {
                        assert(via@[j] == paths[j]);
                        assert(out@[j] == before[j]);
                    }
                }
            }
            assert forall|i: int| 0 <= i < s + 1 implies out@.contains(#[trigger] starts[i]) by {
                if i < s {
                    let j = choose|j: int| 0 <= j < before.len() && before[j] == starts[i];
                    assert(out@[j] == starts[i]);
                } else {
                    assert(out@[before.len() as int] == k);
                }
            }
            assert forall|x: ParamKey| out@.contains(x) implies reaches_from(e, starts@, x) by {
                let j = choose|j: int| 0 <= j < out@.len() && out@[j] == x;
                if j < before.len() {
                    assert(before.contains(x));
                }
            }
        }
        s += 1;
    }
    let mut i: usize = 0;
    while i < out.len()
        invariant
            i <= out.len(),
            e == oriented(graph_edges(*g), backward),
            n == graph_nodes(*g),
            m == n.union(starts@.to_set()),
            m.finite(),
            edges_within(e, n),
            out@.no_duplicates(),
            traced(e, starts@, out@, via@),
            seen_all(seen@, out@),
            forall|j: int| 0 <= j < out.len() ==> m.contains(#[trigger] out@[j]),
            forall|j: int| 0 <= j < starts.len() ==> out@.contains(#[trigger] starts[j]),
            forall|x: ParamKey| out@.contains(x) ==> reaches_from(e, starts@, x),
            forall|j: int, y: ParamKey|
                0 <= j < i && #[trigger] e.contains((out@[j], y)) ==> out@.contains(y),
        decreases m.len() - i,
    {
        proof {
            lemma_distinct_len_bound(out@, m);
        }
        let cur = out[i];
        let succ = if backward {
            graph_predecessors(g, cur)
        } else {
            graph_successors(g, cur)
        };
        assert forall|x: ParamKey| succ@.contains(x) <==> e.contains((cur, x)) by {
            if backward {
                assert(e.contains((cur, x)) <==> graph_edges(*g).contains((x, cur)));
            }
        }
        let mut c: usize = 0;
        while c < succ.len()
            invariant
                c <= succ.len(),
                i < out.len(),
                cur == out@[i as int],
                e == oriented(graph_edges(*g), backward),
                n == graph_nodes(*g),
                m == n.union(starts@.to_set()),
            m == n.union(starts@.to_set()),
                edges_within(e, n),
                forall|x: ParamKey| succ@.contains(x) <==> e.contains((cur, x)),
                out@.no_duplicates(),
                traced(e, starts@, out@, via@),
                seen_all(seen@, out@),
                forall|j: int| 0 <= j < out.len() ==> m.contains(#[trigger] out@[j]),
                forall|j: int| 0 <= j < starts.len() ==> out@.contains(#[trigger] starts[j]),
                forall|x: ParamKey| out@.contains(x) ==> reaches_from(e, starts@, x),
                forall|j: int, y: ParamKey|
                    0 <= j < i && #[trigger] e.contains((out@[j], y)) ==> out@.contains(y),
                forall|m: int| 0 <= m < c ==> out@.contains(#[trigger] succ@[m]),
            decreases succ.len() - c,
        {
            let y = succ[c];
            assert(succ@.contains(y));
            assert(e.contains((cur, y)));
            if !seen.contains(&pack(y)) {
                let ghost before = out@;
                let ghost marks = seen@;
                proof {
                    assert(before.contains(cur));
                    let w = choose|w: int|
                        0 <= w < starts.len() && #[trigger] reaches(e, starts@[w], cur);
                    lemma_reaches_step(e, starts@[w], cur, y);
                }
                let ghost paths = via@;
                via.push(i);
                out.push(y);
                seen.insert(pack(y));
                assert(seen_all(seen@, out@)) by {
                    assert forall|x: ParamKey|
                        #[trigger] seen@.contains(packed(x)) <==> out@.contains(x) by {
                        if packed(x) == packed(y) {
                            lemma_packed_apart(x, y);
                            assert(out@[before.len() as int] == y);
                        } else {
                            assert(marks.contains(packed(x)) <==> before.contains(x));
                            if before.contains(x) {
                                let j = choose|j: int| 0 <= j < before.len() && before[j] == x;
                                assert(out@[j] == x);
                            }
                            if out@.contains(x) {
                                let j = choose|j: int| 0 <= j < out@.len() && out@[j] == x;
                                assert(before[j] == x);
                            }
                        }
                    }
                }
                assert(traced(e, starts@, out@, via@)) by {
                    assert forall|j: int| 0 <= j < out@.len() implies {
                        &&& (#[trigger] via@[j]) <= j
                        &&& via@[j] == j ==> starts@.contains(out@[j])
                        &&& via@[j] < j ==> e.contains((out@[via@[j] as int], out@[j]))
                    } by {
                        if j < before.len() {
                            assert(via@[j] == paths[j]);
                            assert(out@[j] == before[j]);
                            assert(out@[via@[j] as int] == before[paths[j] as int]);
                        }
                    }
                }
                assert(out@ == before.push(y));
                assert forall|x: ParamKey| before.contains(x) implies out@.contains(x) by {
                    let j = choose|j: int| 0 <= j < before.len() && before[j] == x;
                    assert(out@[j] == x);
                }
                assert(out@[before.len() as int] == y);
                assert forall|x: ParamKey| out@.contains(x) implies reaches_from(e, starts@, x) by {
                    let j = choose|j: int| 0 <= j < out@.len() && out@[j] == x;
                    if j < before.len() {
                        assert(before.contains(x));
                    }
                }
                assert forall|j: int, z: ParamKey|
                    0 <= j < i && #[trigger] e.contains((out@[j], z)) implies out@.contains(z) by {
                    assert(out@[j] == before[j]);
                    assert(before.contains(z));
                }
            }
            c += 1;
        }
        assert forall|j: int, y: ParamKey|
            0 <= j < i + 1 && #[trigger] e.contains((out@[j], y)) implies out@.contains(y) by {
            if j == i {
                assert(succ@.contains(y));
                let m = choose|m: int| 0 <= m < succ@.len() && succ@[m] == y;
                assert(out@.contains(succ@[m]));
            }
        }
        i += 1;
    }
    proof {
        let members = out@.to_set();
        assert(closed_under(e, members)) by {
            assert forall|a: ParamKey, b: ParamKey|
                members.contains(a) && #[trigger] e.contains((a, b)) implies members.contains(b) by {
                let j = choose|j: int| 0 <= j < out@.len() && out@[j] == a;
                assert(e.contains((out@[j], b)));
            }
        }
        assert forall|x: ParamKey| reaches_from(e, starts@, x) implies out@.contains(x) by {
            let w = choose|w: int| 0 <= w < starts.len() && #[trigger] reaches(e, starts@[w], x);
            assert(out@.contains(starts[w]));
            lemma_closed_contains_reachable(e, members, starts@[w], x);
        }
    }
    (out, via)
}

} // verus!
