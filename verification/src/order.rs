use vstd::prelude::*;
use crate::closure::oriented;
use crate::depgraph::{Edge, ParamKey};
use crate::network::{GenericNodeId, Network};
use crate::reach::{
    acyclic, edges_within, is_walk, lemma_reach_within, lemma_reaches_self, lemma_walk_push, reaches,
    step_ok,
};

verus! {

/// The parameter `q` and everything that it depends on, directly or through
/// other parameters.
pub open spec fn upstream_set(e: Set<Edge>, q: ParamKey) -> Set<ParamKey> {
    Set::new(|x: ParamKey| reaches(oriented(e, true), q, x))
}

/// A walk against the edges is a walk along them, read from its end.
pub proof fn lemma_turn_walk(e: Set<Edge>, p: Seq<ParamKey>)
    requires
        is_walk(oriented(e, true), p),
    ensures
        is_walk(e, p.reverse()),
        p.reverse()[0] == p.last(),
        p.reverse().last() == p[0],
{
    let r = p.reverse();
    assert forall|i: int| 0 <= i < r.len() - 1 implies #[trigger] step_ok(e, r, i) by {
        let j = p.len() - 2 - i;
        assert(step_ok(oriented(e, true), p, j));
        assert(r[i] == p[j + 1] && r[i + 1] == p[j]);
    }
}

/// Along an edge of an acyclic graph the upstream set grows: the head of
/// the edge depends on all that the tail depends on, and on itself.
pub proof fn lemma_upstream_grows(e: Set<Edge>, n: Set<ParamKey>, a: ParamKey, b: ParamKey)
    requires
        acyclic(e),
        n.finite(),
        edges_within(e, n),
        e.contains((a, b)),
    ensures
        upstream_set(e, a).finite(),
        upstream_set(e, b).finite(),
        upstream_set(e, a).len() < upstream_set(e, b).len(),
{
    let back = oriented(e, true);
    let ua = upstream_set(e, a);
    let ub = upstream_set(e, b);
    assert(edges_within(back, n)) by {
        assert forall|x: ParamKey, y: ParamKey|
            #[trigger] back.contains((x, y))
            implies n.contains(x) && n.contains(y) by {
            assert(e.contains((y, x)));
        }
    }
    assert(ua.subset_of(n)) by {
        assert forall|x: ParamKey| ua.contains(x) implies n.contains(x) by {
            lemma_reach_within(back, n, a, x);
        }
    }
    assert(ub.subset_of(n)) by {
        assert forall|x: ParamKey| ub.contains(x) implies n.contains(x) by {
            lemma_reach_within(back, n, b, x);
        }
    }
    vstd::set_lib::lemma_len_subset(ua, n);
    vstd::set_lib::lemma_len_subset(ub, n);
    assert(ub.contains(b)) by {
        lemma_reaches_self(back, b);
    }
    assert(!ua.contains(b)) by {
        if reaches(back, a, b) {
            let p = choose|p: Seq<ParamKey>|
                #[trigger] is_walk(back, p) && p[0] == a && p.last() == b;
            lemma_turn_walk(e, p);
            let r = p.reverse();
            lemma_walk_push(e, r, b);
            let c = r.push(b);
            assert(is_walk(e, c) && c.len() >= 2 && c[0] == b && c.last() == b);
        }
    }
    assert(ua.subset_of(ub.remove(b))) by {
        assert forall|x: ParamKey| ua.contains(x) implies ub.remove(b).contains(x) by {
            let p = choose|p: Seq<ParamKey>|
                #[trigger] is_walk(back, p) && p[0] == a && p.last() == x;
            let q = seq![b] + p;
            assert forall|i: int| 0 <= i < q.len() - 1 implies #[trigger] step_ok(back, q, i) by {
                if i == 0 {
                    assert(q[0] == b && q[1] == p[0]);
                } else {
                    assert(step_ok(back, p, i - 1));
                    assert(q[i] == p[i - 1] && q[i + 1] == p[i]);
                }
            }
            assert(is_walk(back, q) && q[0] == b && q.last() == x);
        }
    }
    vstd::set_lib::lemma_len_subset(ua, ub.remove(b));
}

impl Network {
    /// How many parameters the parameter `q` depends on, itself included.
    pub open spec fn rank(self, q: ParamKey) -> nat {
        upstream_set(self.edges(), q).len()
    }

    /// Lists the dirty parameters, each once: the nodes in the order of
    /// their slots in the store, the parameters of a node in the order of
    /// their creation.
    pub fn dirty_params(&self) -> (out: Vec<ParamKey>)
        requires
            self.sound(),
        ensures
            out@.no_duplicates(),
            forall|q: ParamKey|
                #[trigger] out@.contains(q) <==> self.has_param(q) && self.param(q).dirty,
    {
        let keys = self.node_keys();
        let mut out: Vec<ParamKey> = Vec::new();
        let mut n: usize = 0;
        while n < keys.len()
            invariant
                n <= keys.len(),
                self.sound(),
                keys@.no_duplicates(),
                forall|k: u64| keys@.contains(k) <==> self.nodes().dom().contains(k),
                out@.no_duplicates(),
                forall|q: ParamKey| #[trigger]
                    out@.contains(q) <==> self.has_param(q) && self.param(q).dirty && exists|j: int|
                        0 <= j < n && keys@[j] == q.0,
            decreases keys.len() - n,
        {
            let k = keys[n];
            assert(keys@.contains(k));
            let ghost base = out@;
            let count = match self.node(GenericNodeId { raw: k }) {
                Ok(rec) => rec.params.len(),
                Err(_) => 0,
            };
            let mut i: usize = 0;
            while i < count
                invariant
                    i <= count,
                    n < keys.len(),
                    k == keys@[n as int],
                    self.sound(),
                    self.nodes().dom().contains(k),
                    count == self.nodes()[k].params@.len(),
                    keys@.no_duplicates(),
                    out@.no_duplicates(),
                    forall|q: ParamKey| base.contains(q) ==> q.0 != k,
                    forall|q: ParamKey| #[trigger]
                        out@.contains(q) <==> base.contains(q) || (q.0 == k && q.1 < i && self.param(q).dirty),
                decreases count - i,
            {
                let dirty = match self.get_param(GenericNodeId { raw: k }, i) {
                    Ok(p) => p.dirty,
                    Err(_) => false,
                };
                if dirty {
                    let ghost prev = out@;
                    out.push((k, i));
                    proof {
                        assert forall|q: ParamKey| #[trigger] out@.contains(q) implies base.contains(q) || (q.0 == k
                            && q.1 < i + 1 && self.param(q).dirty) by {
                            let m = choose|m: int| 0 <= m < out@.len() && out@[m] == q;
                            if m < prev.len() {
                                assert(prev.contains(q));
                            }
                        }
                        assert forall|q: ParamKey| base.contains(q) || (q.0 == k && q.1 < i + 1 && self.param(q).dirty)
                            implies #[trigger] out@.contains(q) by {
                            if q.0 == k && q.1 == i {
                                assert(q == (k, i));
                                assert(out@[prev.len() as int] == q);
                            } else {
                                assert(prev.contains(q));
                                let m = choose|m: int| 0 <= m < prev.len() && prev[m] == q;
                                assert(out@[m] == q);
                            }
                        }
                        assert(!prev.contains((k, i)));
                    }
                }
                i += 1;
            }
            proof {
                assert forall|q: ParamKey| #[trigger]
                    out@.contains(q) <==> self.has_param(q) && self.param(q).dirty && exists|j: int|
                        0 <= j < n + 1 && keys@[j] == q.0 by {
                    if base.contains(q) {
                        let j = choose|j: int| 0 <= j < n && keys@[j] == q.0;
                        assert(keys@[j] == q.0);
                    }
                    if self.has_param(q) && self.param(q).dirty && exists|j: int| 0 <= j < n + 1 && keys@[j] == q.0 {
                        let j = choose|j: int| 0 <= j < n + 1 && keys@[j] == q.0;
                        if j < n {
                            assert(base.contains(q));
                        }
                    }
                }
            }
            n += 1;
        }
        proof {
            assert forall|q: ParamKey|
                #[trigger] out@.contains(q) <==> self.has_param(q) && self.param(q).dirty by {
                if self.has_param(q) {
                    assert(keys@.contains(q.0));
                    let j = choose|j: int| 0 <= j < keys@.len() && keys@[j] == q.0;
                    assert(keys@[j] == q.0);
                }
            }
        }
        out
    }

    /// Counts, for each of `list`, the parameters that it depends on.
    fn ranks(&self, list: &Vec<ParamKey>) -> (r: Vec<usize>)
        requires
            self.sound(),
            forall|i: int| 0 <= i < list@.len() ==> self.has_param(#[trigger] list@[i]),
        ensures
            r@.len() == list@.len(),
            forall|i: int| 0 <= i < r@.len() ==> (#[trigger] r@[i]) == self.rank(list@[i]),
    {
        let mut r: Vec<usize> = Vec::new();
        let mut i: usize = 0;
        while i < list.len()
            invariant
                i <= list.len(),
                self.sound(),
                forall|j: int| 0 <= j < list@.len() ==> self.has_param(#[trigger] list@[j]),
                r@.len() == i,
                forall|j: int| 0 <= j < i ==> (#[trigger] r@[j]) == self.rank(list@[j]),
            decreases list.len() - i,
        {
            let up = self.upstream(list[i]);
            proof {
                up@.unique_seq_to_set();
                assert(up@.to_set() =~= upstream_set(self.edges(), list@[i as int]));
            }
            r.push(up.len());
            i += 1;
        }
        r
    }

    /// Reads the place of each of `list` in the order of creation.
    fn serials(&self, list: &Vec<ParamKey>) -> (r: Vec<u64>)
        requires
            self.sound(),
            forall|i: int| 0 <= i < list@.len() ==> self.has_param(#[trigger] list@[i]),
        ensures
            r@.len() == list@.len(),
            forall|i: int| 0 <= i < r@.len() ==> (#[trigger] r@[i]) == self.param(list@[i]).serial,
    {
        let mut r: Vec<u64> = Vec::new();
        let mut i: usize = 0;
        while i < list.len()
            invariant
                i <= list.len(),
                self.sound(),
                forall|j: int| 0 <= j < list@.len() ==> self.has_param(#[trigger] list@[j]),
                r@.len() == i,
                forall|j: int| 0 <= j < i ==> (#[trigger] r@[j]) == self.param(list@[j]).serial,
            decreases list.len() - i,
        {
            let serial = match self.get_param(GenericNodeId { raw: list[i].0 }, list[i].1) {
                Ok(p) => p.serial,
                Err(_) => 0,
            };
            r.push(serial);
            i += 1;
        }
        r
    }

    /// The parameter `a` comes before the parameter `b` in a refresh, or
    /// they may come in either order: `a` depends on fewer parameters, or
    /// on as many and was not made later.
    pub open spec fn comes_first(self, a: ParamKey, b: ParamKey) -> bool {
        self.rank(a) < self.rank(b) || (self.rank(a) == self.rank(b) && self.param(a).serial
            <= self.param(b).serial)
    }

    /// Lists the dirty parameters in the order in which `refresh` evaluates
    /// them: each comes after the dirty parameters that it depends on,
    /// directly or through others. The order is that of the number of
    /// parameters that a parameter depends on, and among parameters that
    /// depend on as many, that of their creation.
    pub fn refresh_order(&self) -> (order: Vec<ParamKey>)
        requires
            self.sound(),
        ensures
            order@.no_duplicates(),
            forall|q: ParamKey|
                #[trigger] order@.contains(q) <==> self.has_param(q) && self.param(q).dirty,
            forall|i: int, j: int|
                0 <= i < j < order@.len() ==> self.comes_first(#[trigger] order@[i], #[trigger] order@[j]),
            forall|i: int, j: int|
                0 <= i < order@.len() && 0 <= j < order@.len() && self.edges().contains(
                    (#[trigger] order@[i], #[trigger] order@[j]),
                ) ==> i < j,
    {
        let list = self.dirty_params();
        assert forall|i: int| 0 <= i < list@.len() implies self.has_param(#[trigger] list@[i]) by {
            assert(list@.contains(list@[i]));
        }
        let mut rk = self.ranks(&list);
        let mut sr = self.serials(&list);
        let mut order = list;
        let ghost given = order@;
        let n = order.len();
        let mut t: usize = 0;
        while t < n
            invariant
                t <= n,
                n == order@.len(),
                n == rk@.len(),
                n == sr@.len(),
                self.sound(),
                order@.no_duplicates(),
                forall|q: ParamKey|
                    #![trigger order@.contains(q)]
                    #![trigger given.contains(q)]
                    order@.contains(q) <==> given.contains(q),
                forall|q: ParamKey|
                    #[trigger] given.contains(q) <==> self.has_param(q) && self.param(q).dirty,
                forall|i: int| 0 <= i < n ==> (#[trigger] rk@[i]) == self.rank(order@[i]),
                forall|i: int| 0 <= i < n ==> (#[trigger] sr@[i]) == self.param(order@[i]).serial,
                forall|i: int, j: int|
                    0 <= i < t && i < j < n ==> self.comes_first(#[trigger] order@[i], #[trigger] order@[j]),
            decreases n - t,
        {
            let mut m: usize = t;
            let mut j: usize = t + 1;
            while j < n
                invariant
                    t < n,
                    t <= m < n,
                    t < j <= n,
                    n == rk@.len(),
                    n == sr@.len(),
                    n == order@.len(),
                    forall|i: int| 0 <= i < n ==> (#[trigger] rk@[i]) == self.rank(order@[i]),
                    forall|i: int| 0 <= i < n ==> (#[trigger] sr@[i]) == self.param(order@[i]).serial,
                    forall|i: int| t <= i < j ==> self.comes_first(order@[m as int], #[trigger] order@[i]),
                decreases n - j,
            {
                if rk[j] < rk[m] || (rk[j] == rk[m] && sr[j] < sr[m]) {
                    proof {
                        assert forall|i: int| t <= i < j + 1 implies self.comes_first(
                            order@[j as int],
                            #[trigger] order@[i],
                        ) by {
                            assert(rk@[j as int] == self.rank(order@[j as int]));
                            assert(rk@[m as int] == self.rank(order@[m as int]));
                            assert(sr@[j as int] == self.param(order@[j as int]).serial);
                            assert(sr@[m as int] == self.param(order@[m as int]).serial);
                            if i < j {
                                assert(self.comes_first(order@[m as int], order@[i]));
                            }
                        }
                    }
                    m = j;
                } else {
                    proof {
                        assert(rk@[j as int] == self.rank(order@[j as int]));
                        assert(rk@[m as int] == self.rank(order@[m as int]));
                        assert(sr@[j as int] == self.param(order@[j as int]).serial);
                        assert(sr@[m as int] == self.param(order@[m as int]).serial);
                    }
                }
                j += 1;
            }
            let ghost before = order@;
            let ghost ranks_before = rk@;
            let key_t = order[t];
            let key_m = order[m];
            let rank_t = rk[t];
            let rank_m = rk[m];
            let serial_t = sr[t];
            let serial_m = sr[m];
            let ghost serials_before = sr@;
            order[t] = key_m;
            order[m] = key_t;
            rk[t] = rank_m;
            rk[m] = rank_t;
            sr[t] = serial_m;
            sr[m] = serial_t;
            proof {
                assert forall|q: ParamKey|
                    #[trigger] order@.contains(q) <==> before.contains(q) by {
                    if order@.contains(q) {
                        let i = choose|i: int| 0 <= i < order@.len() && order@[i] == q;
                        if i == t {
                            assert(before[m as int] == q);
                        } else if i == m {
                            assert(before[t as int] == q);
                        } else {
                            assert(before[i] == q);
                        }
                    }
                    if before.contains(q) {
                        let i = choose|i: int| 0 <= i < before.len() && before[i] == q;
                        if i == t {
                            assert(order@[m as int] == q);
                        } else if i == m {
                            assert(order@[t as int] == q);
                        } else {
                            assert(order@[i] == q);
                        }
                    }
                }
                assert forall|a: int, b: int|
                    0 <= a < b < order@.len()
                    implies order@[a] != order@[b] by {
                    let a2 = if a == t { m as int } else if a == m { t as int } else { a };
                    let b2 = if b == t { m as int } else if b == m { t as int } else { b };
                    assert(order@[a] == before[a2] && order@[b] == before[b2]);
                    assert(a2 != b2);
                }
                assert forall|i: int, j: int|
                    0 <= i < t + 1 && i < j < n
                    implies self.comes_first(#[trigger] order@[i], #[trigger] order@[j]) by {
                    let j2 = if j == t {
                        m as int
                    } else if j == m {
                        t as int
                    } else {
                        j
                    };
                    assert(order@[j] == before[j2]);
                    if i < t {
                        assert(order@[i] == before[i]);
                        assert(self.comes_first(before[i], before[j2]));
                    } else {
                        assert(order@[i] == before[m as int]);
                        assert(self.comes_first(before[m as int], before[j2]));
                    }
                }
                assert forall|i: int|
                    0 <= i < n
                    implies (#[trigger] sr@[i]) == self.param(order@[i]).serial by {
                    let i2 = if i == t { m as int } else if i == m { t as int } else { i };
                    assert(sr@[i] == serials_before[i2]);
                    assert(order@[i] == before[i2]);
                }
                assert forall|i: int|
                    0 <= i < n
                    implies (#[trigger] rk@[i]) == self.rank(order@[i]) by {
                    let i2 = if i == t { m as int } else if i == m { t as int } else { i };
                    assert(rk@[i] == ranks_before[i2]);
                    assert(order@[i] == before[i2]);
                }
            }
            t += 1;
        }
        proof {
            assert forall|i: int, j: int|
                0 <= i < order@.len() && 0 <= j < order@.len() && self.edges().contains(
                    (#[trigger] order@[i], #[trigger] order@[j]),
                ) implies i < j by {
                lemma_upstream_grows(self.edges(), self.graph_keys(), order@[i], order@[j]);
                assert(rk@[i] == self.rank(order@[i]));
                assert(rk@[j] == self.rank(order@[j]));
                if j < i {
                    assert(self.comes_first(order@[j], order@[i]));
                }
            }
        }
        order
    }
}

} // verus!
