use vstd::prelude::*;
use crate::depgraph::{Edge, ParamKey};
use crate::edit::all_resolve;
use crate::error::Error;
use crate::expr::Expr;
use crate::network::{GenericNodeId, Network};
use crate::param::Param;
use crate::reach::{
    acyclic, closed_walk, lemma_closed_walk_cyclic, lemma_reaches_self, lemma_reaches_step, lemma_walk_mono, lemma_walk_push,
    reaches, reaches_from,
};
use crate::refs::ref_paths;

verus! {

/// One pending edit of an expression: the parameter, and the expression that
/// it is to get.
pub type Edit = (ParamKey, Expr);

/// No parameter is edited twice.
pub open spec fn keys_distinct(pending: Seq<Edit>) -> bool {
    forall|i: int, j: int|
        0 <= i < j < pending.len() ==> (#[trigger] pending[i]).0 != (#[trigger] pending[j]).0
}

/// The parameters that the edits are for, in order.
pub open spec fn edit_keys(pending: Seq<Edit>) -> Seq<ParamKey> {
    Seq::new(pending.len(), |i: int| pending[i].0)
}

/// One of the edits is for the parameter `k`.
pub open spec fn edited(pending: Seq<Edit>, k: ParamKey) -> bool {
    exists|i: int| 0 <= i < pending.len() && (#[trigger] pending[i]).0 == k
}

/// The expression that the edits give to the parameter `k`, or `keep` where
/// none of them is for it.
pub open spec fn edit_expr(pending: Seq<Edit>, k: ParamKey, keep: Expr) -> Expr {
    if edited(pending, k) {
        pending[choose|i: int| 0 <= i < pending.len() && (#[trigger] pending[i]).0 == k].1
    } else {
        keep
    }
}

/// Where no parameter is edited twice, the expression that the edits give to
/// a parameter is that of the one edit that is for it.
pub proof fn lemma_edit_expr(pending: Seq<Edit>, i: int, keep: Expr)
    requires
        keys_distinct(pending),
        0 <= i < pending.len(),
    ensures
        edited(pending, pending[i].0),
        edit_expr(pending, pending[i].0, keep) == pending[i].1,
{
    let k = pending[i].0;
    let j = choose|j: int| 0 <= j < pending.len() && (#[trigger] pending[j]).0 == k;
    if i < j {
        assert(pending[i].0 != pending[j].0);
    } else if j < i {
        assert(pending[j].0 != pending[i].0);
    }
}

/// What one more edit adds to the edits before it.
pub proof fn lemma_edited_push(pending: Seq<Edit>, n: int)
    requires
        keys_distinct(pending),
        0 <= n < pending.len(),
    ensures
        forall|k: ParamKey|
            edited(pending.subrange(0, n + 1), k) <==> edited(pending.subrange(0, n), k) || k
                == pending[n].0,
        forall|k: ParamKey, keep: Expr|
            edit_expr(pending.subrange(0, n + 1), k, keep) == (if k == pending[n].0 {
                pending[n].1
            } else {
                edit_expr(pending.subrange(0, n), k, keep)
            }),
{
    let a = pending.subrange(0, n);
    let b = pending.subrange(0, n + 1);
    assert(keys_distinct(b)) by {
        assert forall|i: int, j: int|
            0 <= i < j < b.len()
            implies (#[trigger] b[i]).0 != (#[trigger] b[j]).0 by {
            assert(pending[i].0 != pending[j].0);
        }
    }
    assert(keys_distinct(a)) by {
        assert forall|i: int, j: int|
            0 <= i < j < a.len()
            implies (#[trigger] a[i]).0 != (#[trigger] a[j]).0 by {
            assert(pending[i].0 != pending[j].0);
        }
    }
    assert forall|k: ParamKey| edited(b, k) <==> edited(a, k) || k == pending[n].0 by {
        if edited(b, k) {
            let i = choose|i: int| 0 <= i < b.len() && (#[trigger] b[i]).0 == k;
            if i < n {
                assert(a[i].0 == k);
            }
        }
        if edited(a, k) {
            let i = choose|i: int| 0 <= i < a.len() && (#[trigger] a[i]).0 == k;
            assert(b[i].0 == k);
        }
        if k == pending[n].0 {
            assert(b[n].0 == k);
        }
    }
    assert forall|k: ParamKey, keep: Expr|
        edit_expr(b, k, keep) == (if k == pending[n].0 {
            pending[n].1
        } else {
            edit_expr(a, k, keep)
        }) by {
        if k == pending[n].0 {
            assert(b[n] == pending[n]);
            lemma_edit_expr(b, n, keep);
        } else if edited(a, k) {
            let i = choose|i: int| 0 <= i < a.len() && (#[trigger] a[i]).0 == k;
            lemma_edit_expr(a, i, keep);
            assert(b[i] == a[i]);
            lemma_edit_expr(b, i, keep);
        }
    }
}

/// One of the first `n` edits, whose targets are listed in `all`, makes `e`
/// a dependency edge.
pub open spec fn link_edge(pending: Seq<Edit>, all: Seq<Vec<ParamKey>>, n: int, e: Edge) -> bool {
    exists|i: int|
        0 <= i < n && i < pending.len() && i < all.len() && (#[trigger] pending[i]).0 == e.1 && all[i]@.contains(
            e.0,
        )
}

impl Network {
    /// Gives each edited parameter its new expression and drops the edges
    /// into it.
    fn unlink_edits(&mut self, pending: &Vec<Edit>)
        requires
            old(self).sound(),
            old(self).edits_exist(pending@),
            keys_distinct(pending@),
        ensures
            final(self).sound(),
            Self::same_shape(*old(self), *final(self)),
            final(self).script_runs() == old(self).script_runs(),
            final(self).edges() == Set::new(|e: Edge| old(self).edges().contains(e) && !edited(pending@, e.1)),
            forall|q: ParamKey| #[trigger]
                old(self).has_param(q) ==> final(self).param(q) == (Param {
                    expr: edit_expr(pending@, q, old(self).param(q).expr),
                    ..old(self).param(q)
                }),
    {
        let ghost e0 = self.edges();
        let none: Vec<ParamKey> = Vec::new();
        let mut j: usize = 0;
        assert(self.edges() =~= Set::new(|e: Edge| e0.contains(e) && !edited(pending@.subrange(0, 0), e.1)));
        while j < pending.len()
            invariant
                j <= pending.len(),
                none@.len() == 0,
                e0 == old(self).edges(),
                old(self).sound(),
                old(self).edits_exist(pending@),
                keys_distinct(pending@),
                self.sound(),
                Self::same_shape(*old(self), *self),
                self.script_runs() == old(self).script_runs(),
                forall|q: ParamKey| self.has_param(q) == old(self).has_param(q),
                self.edges() == Set::new(
                    |e: Edge| e0.contains(e) && !edited(pending@.subrange(0, j as int), e.1),
                ),
                forall|q: ParamKey| #[trigger]
                    old(self).has_param(q) ==> self.param(q) == (Param {
                        expr: edit_expr(pending@.subrange(0, j as int), q, old(self).param(q).expr),
                        ..old(self).param(q)
                    }),
            decreases pending.len() - j,
        {
            let ghost prev = *self;
            let key = pending[j].0;
            let expr = pending[j].1.clone();
            assert(old(self).has_param(pending@[j as int].0));
            let slot = self.param_mut(key);
            slot.expr = expr;
            proof {
                Self::lemma_param_replaced_wf(prev, *self, key, Param { expr, ..prev.param(key) });
            }
            let ghost stored = *self;
            self.relink(key, &none);
            proof {
                lemma_edited_push(pending@, j as int);
                Self::lemma_same_shape_params(*old(self), *self);
                assert(self.edges() =~= Set::new(
                    |e: Edge| e0.contains(e) && !edited(pending@.subrange(0, j + 1), e.1),
                ));
                assert forall|q: ParamKey| #[trigger] old(self).has_param(q) implies self.param(q) == (Param {
                    expr: edit_expr(pending@.subrange(0, j + 1), q, old(self).param(q).expr),
                    ..old(self).param(q)
                }) by {
                    assert(prev.has_param(q));
                    assert(self.param(q) == stored.param(q));
                }
            }
            j += 1;
        }
        assert(pending@.subrange(0, pending.len() as int) == pending@);
    }

    /// Adds the edges that the edits make, one edit after the other, and
    /// stops at the first edit that would close a cycle, which it returns.
    /// Where it returns none, all edges were added.
    fn link_edits(&mut self, pending: &Vec<Edit>, all: &Vec<Vec<ParamKey>>) -> (bad: Option<Vec<ParamKey>>)
        requires
            old(self).sound(),
            old(self).edits_exist(pending@),
            keys_distinct(pending@),
            all@.len() == pending@.len(),
            forall|i: int, j: int|
                0 <= i < all@.len() && 0 <= j < all@[i]@.len() ==> old(self).has_param(#[trigger] all@[i]@[j]),
            forall|e: Edge| old(self).edges().contains(e) ==> !edited(pending@, e.1),
        ensures
            final(self).sound(),
            final(self).nodes() == old(self).nodes(),
            final(self).graph_keys() == old(self).graph_keys(),
            final(self).root_id() == old(self).root_id(),
            final(self).script_runs() == old(self).script_runs(),
            final(self).payloads() == old(self).payloads(),
            final(self).history() == old(self).history(),
            bad is None <==> acyclic(
                Set::new(
                    |e: Edge| old(self).edges().contains(e) || link_edge(pending@, all@, pending@.len() as int, e),
                ),
            ),
            bad is None ==> final(self).edges() == Set::new(
                |e: Edge| old(self).edges().contains(e) || link_edge(pending@, all@, pending@.len() as int, e),
            ),
            bad matches Some(cycle) ==> closed_walk(
                Set::new(
                    |e: Edge| old(self).edges().contains(e) || link_edge(pending@, all@, pending@.len() as int, e),
                ),
                cycle@,
            ),
    {
        let ghost e0 = self.edges();
        let ghost full = Set::new(|e: Edge| e0.contains(e) || link_edge(pending@, all@, pending@.len() as int, e));
        let mut j: usize = 0;
        assert(self.edges() =~= Set::new(|e: Edge| e0.contains(e) || link_edge(pending@, all@, 0, e)));
        while j < pending.len()
            invariant
                j <= pending.len(),
                e0 == old(self).edges(),
                full == Set::new(|e: Edge| e0.contains(e) || link_edge(pending@, all@, pending@.len() as int, e)),
                old(self).edits_exist(pending@),
                keys_distinct(pending@),
                all@.len() == pending@.len(),
                forall|i: int, m: int|
                    0 <= i < all@.len() && 0 <= m < all@[i]@.len() ==> old(self).has_param(#[trigger] all@[i]@[m]),
                forall|e: Edge| e0.contains(e) ==> !edited(pending@, e.1),
                self.sound(),
                self.nodes() == old(self).nodes(),
                self.graph_keys() == old(self).graph_keys(),
                self.root_id() == old(self).root_id(),
                self.script_runs() == old(self).script_runs(),
                self.payloads() == old(self).payloads(),
                self.history() == old(self).history(),
                self.edges() == Set::new(|e: Edge| e0.contains(e) || link_edge(pending@, all@, j as int, e)),
            decreases pending.len() - j,
        {
            let ghost cur = self.edges();
            let key = pending[j].0;
            assert(old(self).has_param(pending@[j as int].0));
            assert(self.has_param(key));
            let targets = &all[j];
            assert(cur.subset_of(full)) by {
                assert forall|e: Edge| cur.contains(e) implies full.contains(e) by {
                    if link_edge(pending@, all@, j as int, e) {
                        let i = choose|i: int|
                            0 <= i < j && i < pending@.len() && i < all@.len() && (#[trigger] pending@[i]).0 == e.1
                                && all@[i]@.contains(e.0);
                        assert(link_edge(pending@, all@, pending@.len() as int, e));
                    }
                }
            }
            let mut m: usize = 0;
            while m < targets.len()
                invariant
                    m <= targets.len(),
                    j < pending.len(),
                    e0 == old(self).edges(),
                    self.nodes() == old(self).nodes(),
                    self.graph_keys() == old(self).graph_keys(),
                    self.root_id() == old(self).root_id(),
                    self.script_runs() == old(self).script_runs(),
                    self.payloads() == old(self).payloads(),
                    self.history() == old(self).history(),
                    self.sound(),
                    self.has_param(key),
                    key == pending@[j as int].0,
                    cur == self.edges(),
                    cur.subset_of(full),
                    targets == all@[j as int],
                    all@.len() == pending@.len(),
                    full == Set::new(
                        |e: Edge| e0.contains(e) || link_edge(pending@, all@, pending@.len() as int, e),
                    ),
                    forall|i: int| 0 <= i < m ==> !reaches(cur, key, #[trigger] targets@[i]),
                decreases targets.len() - m,
            {
                let t = targets[m];
                match self.walk_between(key, t) {
                    Some(walk) => {
                        let mut cycle = walk;
                        let ghost w = cycle@;
                        cycle.push(key);
                        proof {
                            assert(targets@.contains(t));
                            assert(link_edge(pending@, all@, pending@.len() as int, (t, key)));
                            assert(full.contains((t, key)));
                            lemma_walk_mono(cur, full, w);
                            lemma_walk_push(full, w, key);
                            assert(cycle@ == w.push(key));
                            lemma_closed_walk_cyclic(full, cycle@);
                        }
                        return Some(cycle);
                    },
                    None => {},
                }
                m += 1;
            }
            assert forall|i: int|
                0 <= i < targets@.len()
                implies self.has_param(#[trigger] targets@[i]) by {
                assert(old(self).has_param(all@[j as int]@[i]));
            }
            self.relink(key, targets);
            proof {
                assert(self.edges() =~= Set::new(|e: Edge| e0.contains(e) || link_edge(pending@, all@, j + 1, e))) by {
                    assert forall|e: Edge| Self::relinked(cur, key, targets@).contains(e) <==> (e0.contains(e)
                        || link_edge(pending@, all@, j + 1, e)) by {
                        if cur.contains(e) && e.1 == key {
                            if e0.contains(e) {
                                assert(pending@[j as int].0 == e.1);
                                assert(edited(pending@, e.1));
                            } else {
                                let i = choose|i: int|
                                    0 <= i < j && i < pending@.len() && i < all@.len() && (#[trigger] pending@[i]).0
                                        == e.1 && all@[i]@.contains(e.0);
                                assert(pending@[i].0 != pending@[j as int].0);
                            }
                        }
                        if link_edge(pending@, all@, j as int, e) {
                            let i = choose|i: int|
                                0 <= i < j && i < pending@.len() && i < all@.len() && (#[trigger] pending@[i]).0
                                    == e.1 && all@[i]@.contains(e.0);
                            assert(link_edge(pending@, all@, j + 1, e));
                        }
                        if e.1 == key && targets@.contains(e.0) {
                            assert(pending@[j as int].0 == e.1);
                            assert(link_edge(pending@, all@, j + 1, e));
                        }
                        if link_edge(pending@, all@, j + 1, e) {
                            let i = choose|i: int|
                                0 <= i < j + 1 && i < pending@.len() && i < all@.len() && (#[trigger] pending@[i]).0
                                    == e.1 && all@[i]@.contains(e.0);
                            if i < j {
                                assert(link_edge(pending@, all@, j as int, e));
                            }
                        }
                    }
                }
            }
            j += 1;
        }
        None
    }

    /// Applies the edits together, where `check_edits` allows it. Where it
    /// does not, the network may be left with some of the edits applied;
    /// where it does not for a cycle, `trail` is left with a cycle that the
    /// dependency edges would form.
    pub(crate) fn apply_edits(&mut self, pending: &Vec<Edit>, trail: &mut Vec<ParamKey>) -> (res: Result<(), Error>)
        requires
            old(self).wf(),
            keys_distinct(pending@),
        ensures
            final(self).sound(),
            res is Ok ==> final(self).wf(),
            res == old(self).check_edits(pending@),
            res is Ok ==> Self::edits_applied(*old(self), *final(self), pending@),
            res == Err::<(), Error>(Error::CycleDetected) ==> closed_walk(
                old(self).commit_edges(pending@),
                final(trail)@,
            ),
    {
        let all = match self.resolve_edits(pending) {
            Ok(all) => all,
            Err(e) => {
                return Err(e);
            },
        };
        let ghost e0 = self.edges();
        self.unlink_edits(pending);
        let ghost mid = *self;
        proof {
            Self::lemma_same_shape_params(*old(self), mid);
        }
        let bad = self.link_edits(pending, &all);
        proof {
            let full = Set::new(
                |e: Edge| mid.edges().contains(e) || link_edge(pending@, all@, pending@.len() as int, e),
            );
            assert(full =~= old(self).commit_edges(pending@)) by {
                assert forall|e: Edge|
                    full.contains(e) <==> old(self).commit_edges(pending@).contains(e) by {
                    if link_edge(pending@, all@, pending@.len() as int, e) {
                        let i = choose|i: int|
                            0 <= i < pending@.len() && i < pending@.len() && i < all@.len() && (#[trigger] pending@[i]).0
                                == e.1 && all@[i]@.contains(e.0);
                        assert(all@[i]@ == old(self).expr_targets(pending@[i].0, pending@[i].1));
                        assert(old(self).edit_edge(pending@, pending@.len() as int, e));
                    }
                    if old(self).edit_edge(pending@, pending@.len() as int, e) {
                        let i = choose|i: int|
                            0 <= i < pending@.len() && i < pending@.len() && (#[trigger] pending@[i]).0 == e.1 && old(
                                self,
                            ).expr_targets(pending@[i].0, pending@[i].1).contains(e.0);
                        assert(all@[i]@ == old(self).expr_targets(pending@[i].0, pending@[i].1));
                        assert(link_edge(pending@, all@, pending@.len() as int, e));
                    }
                }
            }
        }
        match bad {
            Some(cycle) => {
                *trail = cycle;
                return Err(Error::CycleDetected);
            },
            None => {},
        }
        let ghost linked = *self;
        let mut keys: Vec<ParamKey> = Vec::new();
        let mut i: usize = 0;
        while i < pending.len()
            invariant
                i <= pending.len(),
                keys@.len() == i,
                forall|j: int| 0 <= j < i ==> keys@[j] == pending@[j].0,
            decreases pending.len() - i,
        {
            keys.push(pending[i].0);
            i += 1;
        }
        assert(keys@ =~= edit_keys(pending@));
        assert forall|j: int| 0 <= j < keys.len() implies self.has_param(#[trigger] keys[j]) by {
            assert(old(self).has_param(pending@[j].0));
        }
        let stale = self.dependents(&keys);
        self.mark_dirty(&stale);
        proof {
            assert forall|q: ParamKey| #[trigger] old(self).has_param(q) implies self.param(q) == (Param {
                expr: edit_expr(pending@, q, old(self).param(q).expr),
                dirty: old(self).param(q).dirty || reaches_from(self.edges(), edit_keys(pending@), q),
                ..old(self).param(q)
            }) by {
                assert(mid.has_param(q));
                assert(linked.param(q) == mid.param(q));
                assert(linked.has_param(q));
            }
            assert forall|e: Edge| #[trigger] self.edges().contains(e) && self.param(e.0).dirty
                implies self.param(e.1).dirty by {
                assert(self.edges().contains((e.0, e.1)));
                assert(self.graph_keys().contains(e.0) && self.graph_keys().contains(e.1));
                assert(old(self).has_param(e.0) && old(self).has_param(e.1));
                let keys_seq = edit_keys(pending@);
                if reaches_from(self.edges(), keys_seq, e.0) {
                    let w = choose|w: int|
                        0 <= w < keys_seq.len() && #[trigger] reaches(self.edges(), keys_seq[w], e.0);
                    lemma_reaches_step(self.edges(), keys_seq[w], e.0, e.1);
                } else if edited(pending@, e.1) {
                    let i = choose|i: int| 0 <= i < pending@.len() && (#[trigger] pending@[i]).0 == e.1;
                    lemma_reaches_self(self.edges(), e.1);
                    assert(keys_seq[i] == e.1);
                    assert(reaches(self.edges(), keys_seq[i], e.1));
                } else {
                    assert(old(self).edges().contains(e));
                }
            }
        }
        Ok(())
    }

    /// Every edit is for a parameter of the network.
    pub open spec fn edits_exist(self, pending: Seq<Edit>) -> bool {
        forall|i: int| 0 <= i < pending.len() ==> self.has_param((#[trigger] pending[i]).0)
    }

    /// Every reference spelled out in an edit's expression names a
    /// parameter.
    pub open spec fn edits_resolve(self, pending: Seq<Edit>) -> bool {
        forall|i: int|
            0 <= i < pending.len() ==> all_resolve(
                self.nodes(),
                self.root_id(),
                GenericNodeId { raw: (#[trigger] pending[i]).0.0 },
                ref_paths(pending[i].1.source()),
            )
    }

    /// One of the first `n` edits makes `e` a dependency edge: its
    /// expression, which is for the head of `e`, refers to the tail of `e`.
    pub open spec fn edit_edge(self, pending: Seq<Edit>, n: int, e: Edge) -> bool {
        exists|i: int|
            0 <= i < n && i < pending.len() && (#[trigger] pending[i]).0 == e.1 && self.expr_targets(
                pending[i].0,
                pending[i].1,
            ).contains(e.0)
    }

    /// The dependency edges after the edits: the edges into parameters that
    /// are not edited, and the edges that the edits make.
    pub open spec fn commit_edges(self, pending: Seq<Edit>) -> Set<Edge> {
        Set::new(
            |e: Edge|
                (self.edges().contains(e) && !edited(pending, e.1)) || self.edit_edge(
                    pending,
                    pending.len() as int,
                    e,
                ),
        )
    }

    /// Whether the edits may be applied together, and if not, why not:
    /// `IdNotFound` where one is for a parameter that does not exist,
    /// `NameNotFound` where a reference spelled out in one of the expressions
    /// names no parameter, and `CycleDetected` where the dependency edges
    /// would form a cycle once all edits are applied.
    pub open spec fn check_edits(self, pending: Seq<Edit>) -> Result<(), Error> {
        if !self.edits_exist(pending) {
            Err(Error::IdNotFound)
        } else if !self.edits_resolve(pending) {
            Err(Error::NameNotFound)
        } else if !acyclic(self.commit_edges(pending)) {
            Err(Error::CycleDetected)
        } else {
            Ok(())
        }
    }

    /// What applying the edits to `a` gives, `b`: each edited parameter has
    /// its new expression and depends on what that refers to; the edited
    /// parameters and all that depend on them, directly or through others,
    /// are dirty; nothing else differs.
    pub open spec fn edits_applied(a: Network, b: Network, pending: Seq<Edit>) -> bool {
        &&& Self::same_shape(a, b)
        &&& b.script_runs() == a.script_runs()
        &&& b.edges() == a.commit_edges(pending)
        &&& forall|q: ParamKey| #[trigger]
            a.has_param(q) ==> b.param(q) == (Param {
                expr: edit_expr(pending, q, a.param(q).expr),
                dirty: a.param(q).dirty || reaches_from(b.edges(), edit_keys(pending), q),
                ..a.param(q)
            })
    }

    /// Resolves the references of every edit; see `check_edits` for the
    /// failures.
    fn resolve_edits(&self, pending: &Vec<Edit>) -> (res: Result<Vec<Vec<ParamKey>>, Error>)
        requires
            self.sound(),
        ensures
            match res {
                Ok(all) => {
                    &&& self.edits_exist(pending@)
                    &&& self.edits_resolve(pending@)
                    &&& all@.len() == pending@.len()
                    &&& forall|i: int|
                        0 <= i < all@.len() ==> (#[trigger] all@[i])@ == self.expr_targets(
                            pending@[i].0,
                            pending@[i].1,
                        )
                    &&& forall|i: int, j: int|
                        0 <= i < all@.len() && 0 <= j < all@[i]@.len() ==> self.has_param(
                            #[trigger] all@[i]@[j],
                        )
                },
                Err(e) => if !self.edits_exist(pending@) {
                    e == Error::IdNotFound
                } else {
                    e == Error::NameNotFound && !self.edits_resolve(pending@)
                },
            },
    {
        let mut i: usize = 0;
        while i < pending.len()
            invariant
                i <= pending.len(),
                self.sound(),
                forall|j: int| 0 <= j < i ==> self.has_param((#[trigger] pending@[j]).0),
            decreases pending.len() - i,
        {
            if !self.contains_param(pending[i].0) {
                return Err(Error::IdNotFound);
            }
            i += 1;
        }
        let mut all: Vec<Vec<ParamKey>> = Vec::new();
        let mut i: usize = 0;
        while i < pending.len()
            invariant
                i <= pending.len(),
                self.sound(),
                self.edits_exist(pending@),
                all@.len() == i,
                forall|j: int|
                    0 <= j < i ==> all_resolve(
                        self.nodes(),
                        self.root_id(),
                        GenericNodeId { raw: (#[trigger] pending@[j]).0.0 },
                        ref_paths(pending@[j].1.source()),
                    ),
                forall|j: int|
                    0 <= j < i ==> (#[trigger] all@[j])@ == self.expr_targets(pending@[j].0, pending@[j].1),
                forall|j: int, m: int|
                    0 <= j < all@.len() && 0 <= m < all@[j]@.len() ==> self.has_param(#[trigger] all@[j]@[m]),
            decreases pending.len() - i,
        {
            let key = pending[i].0;
            assert(self.has_param(pending@[i as int].0));
            match self.static_refs(GenericNodeId { raw: key.0 }, pending[i].1.code()) {
                Ok(targets) => {
                    all.push(targets);
                },
                Err(_) => {
                    return Err(Error::NameNotFound);
                },
            }
            i += 1;
        }
        Ok(all)
    }
}

} // verus!
