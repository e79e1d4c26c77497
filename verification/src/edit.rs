use vstd::prelude::*;
use crate::closure::key_in;
use crate::depgraph::{Edge, ParamKey};
use crate::error::{Error, Refused};
use crate::expr::Expr;
use crate::network::{GenericNodeId, Network, NodeHierarchy};
use crate::param::{Param, ParamId};
use crate::path::resolve_spec;
use crate::reach::{
    is_walk, lemma_no_return, lemma_reaches_self, lemma_reaches_step, reaches, reaches_from, step_ok,
};
use crate::refs::{ref_paths, scan_refs};

verus! {

/// The position at which the parameter name begins in a reference path: just
/// behind the last `/`, or at the start where the path holds none.
pub open spec fn name_start(s: Seq<char>) -> int
    decreases s.len(),
{
    if s.len() == 0 {
        0
    } else if s.last() == '/' {
        s.len() as int
    } else {
        name_start(s.drop_last())
    }
}

/// `i` is the index of the first of `params` that is called `name`.
pub open spec fn is_first_named(params: Seq<Param>, name: Seq<char>, i: int) -> bool {
    &&& 0 <= i < params.len()
    &&& params[i].name@ == name
    &&& forall|j: int| 0 <= j < i ==> (#[trigger] params[j]).name@ != name
}

/// The index of the first of `params` that is called `name`.
pub open spec fn first_param_named(params: Seq<Param>, name: Seq<char>) -> Option<ParamId> {
    if exists|i: int| is_first_named(params, name, i) {
        Some((choose|i: int| is_first_named(params, name, i)) as usize)
    } else {
        None
    }
}

/// The parameter that a reference path names as seen from the node `from`:
/// what stands before the last `/` is the path of a node, what stands behind
/// it the name of one of that node's parameters.
pub open spec fn ref_target(
    nodes: Map<u64, NodeHierarchy>,
    root: GenericNodeId,
    from: GenericNodeId,
    path: Seq<char>,
) -> Option<ParamKey> {
    let n = name_start(path);
    match resolve_spec(nodes, root, from, path.subrange(0, n)) {
        Some(node) => match first_param_named(
            nodes[node.raw].params@,
            path.subrange(n, path.len() as int),
        ) {
            Some(i) => Some((node.raw, i)),
            None => None,
        },
        None => None,
    }
}

/// Every one of `paths` names a parameter as seen from `from`.
pub open spec fn all_resolve(
    nodes: Map<u64, NodeHierarchy>,
    root: GenericNodeId,
    from: GenericNodeId,
    paths: Seq<Seq<char>>,
) -> bool {
    forall|i: int|
        0 <= i < paths.len() ==> ref_target(nodes, root, from, #[trigger] paths[i]) is Some
}

/// The parameters that `paths` name as seen from `from`, in order.
pub open spec fn targets_of(
    nodes: Map<u64, NodeHierarchy>,
    root: GenericNodeId,
    from: GenericNodeId,
    paths: Seq<Seq<char>>,
) -> Seq<ParamKey> {
    Seq::new(paths.len(), |i: int| ref_target(nodes, root, from, paths[i])->0)
}

/// At most one index is that of the first parameter of a given name.
pub proof fn lemma_first_named_unique(params: Seq<Param>, name: Seq<char>, i: int, j: int)
    requires
        is_first_named(params, name, i),
        is_first_named(params, name, j),
    ensures
        i == j,
{
    if i < j {
        assert(params[i].name@ != name);
    } else if j < i {
        assert(params[j].name@ != name);
    }
}

/// Finds the position at which the parameter name begins in a reference path.
pub fn split_ref(path: &str) -> (n: usize)
    ensures
        n == name_start(path@),
        n <= path@.len(),
{
    let len = path.unicode_len();
    let mut i = len;
    assert(path@.subrange(0, len as int) == path@);
    while i > 0
        invariant
            len == path@.len(),
            i <= len,
            name_start(path@) == name_start(path@.subrange(0, i as int)),
        decreases i,
    {
        let c = path.get_char(i - 1);
        let ghost pre = path@.subrange(0, i as int);
        assert(pre.last() == c);
        if c == '/' {
            return i;
        }
        assert(pre.drop_last() == path@.subrange(0, i - 1));
        i -= 1;
    }
    0
}

impl Network {
    /// The parameters that the references spelled out in `expr` name, as seen
    /// from the node of `key`.
    pub open spec fn expr_targets(self, key: ParamKey, expr: Expr) -> Seq<ParamKey> {
        targets_of(
            self.nodes(),
            self.root_id(),
            GenericNodeId { raw: key.0 },
            ref_paths(expr.source()),
        )
    }

    /// Whether the expression `expr` may be given to the parameter `key`,
    /// and if not, why not: `IdNotFound` where there is no such parameter,
    /// `NameNotFound` where a reference spelled out in `expr` names no
    /// parameter, and `CycleDetected` where `expr` refers to `key` itself or
    /// to a parameter that depends on it.
    pub open spec fn check_expression(self, key: ParamKey, expr: Expr) -> Result<(), Error> {
        if !self.has_param(key) {
            Err(Error::IdNotFound)
        } else if !all_resolve(
            self.nodes(),
            self.root_id(),
            GenericNodeId { raw: key.0 },
            ref_paths(expr.source()),
        ) {
            Err(Error::NameNotFound)
        } else if exists|i: int|
            0 <= i < self.expr_targets(key, expr).len() && reaches(
                self.edges(),
                key,
                #[trigger] self.expr_targets(key, expr)[i],
            ) {
            Err(Error::CycleDetected)
        } else {
            Ok(())
        }
    }

    /// What `set_expression` leaves behind where it succeeds: the parameter
    /// `key` holds `expr` and depends on what `expr` refers to; `key` and
    /// every parameter that depends on it, directly or through others, is
    /// dirty; no other parameter has changed its state, and no parameter its
    /// cached result.
    pub open spec fn expression_set(old_net: Network, new_net: Network, key: ParamKey, expr: Expr) -> bool {
        &&& Self::same_shape(old_net, new_net)
        &&& new_net.script_runs() == old_net.script_runs()
        &&& new_net.edges() == Self::relinked(old_net.edges(), key, old_net.expr_targets(key, expr))
        &&& forall|q: ParamKey| #[trigger]
            old_net.has_param(q) ==> new_net.param(q) == (Param {
                expr: if q == key {
                    expr
                } else {
                    old_net.param(q).expr
                },
                dirty: old_net.param(q).dirty || reaches(old_net.edges(), key, q),
                ..old_net.param(q)
            })
    }

    /// Replaces the expression of a parameter. The parameter and all that
    /// depend on it become dirty; nothing is evaluated.
    ///
    /// The references that `expr` spells out become the dependencies of the
    /// parameter. The edit is refused, and the network left as it was, where
    /// `check_expression` says so; a refusal for a cycle shows the cycle
    /// that the edit would close.
    pub fn set_expression(&mut self, node: GenericNodeId, param: ParamId, expr: Expr) -> (res: Result<(), Refused>)
        requires
            old(self).wf(),
        ensures
            final(self).wf(),
            res is Ok <==> old(self).check_expression((node.raw, param), expr) is Ok,
            res matches Err(r) ==> old(self).check_expression((node.raw, param), expr) is Err && r.shows(
                old(self).check_expression((node.raw, param), expr)->Err_0,
                Self::relinked(
                    old(self).edges(),
                    (node.raw, param),
                    old(self).expr_targets((node.raw, param), expr),
                ),
            ),
            res is Err ==> *final(self) == *old(self),
            res is Ok ==> Self::expression_set(*old(self), *final(self), (node.raw, param), expr),
    {
        let key: ParamKey = (node.raw, param);
        if !self.contains_param(key) {
            return Err(Refused::plain(Error::IdNotFound));
        }
        let targets = match self.static_refs(node, expr.code()) {
            Ok(targets) => targets,
            Err(e) => {
                return Err(Refused::plain(e));
            },
        };
        let mut starts: Vec<ParamKey> = Vec::new();
        starts.push(key);
        let closure = self.dependents(&starts);
        proof {
            assert forall|x: ParamKey| closure@.contains(x) <==> reaches(self.edges(), key, x) by {
                if reaches_from(self.edges(), starts@, x) {
                    let w = choose|w: int|
                        0 <= w < starts@.len() && #[trigger] reaches(self.edges(), starts@[w], x);
                    assert(starts@[w] == key);
                }
                if reaches(self.edges(), key, x) {
                    assert(reaches(self.edges(), starts@[0], x));
                }
            }
        }
        let mut i: usize = 0;
        while i < targets.len()
            invariant
                i <= targets.len(),
                *self == *old(self),
                self.wf(),
                key == (node.raw, param),
                self.has_param(key),
                all_resolve(
                    self.nodes(),
                    self.root_id(),
                    GenericNodeId { raw: key.0 },
                    ref_paths(expr.source()),
                ),
                targets@ == self.expr_targets(key, expr),
                forall|j: int| 0 <= j < targets@.len() ==> self.has_param(#[trigger] targets@[j]),
                forall|j: int| 0 <= j < closure.len() ==> self.has_param(#[trigger] closure[j]),
                forall|x: ParamKey| closure@.contains(x) <==> reaches(self.edges(), key, x),
                forall|j: int| 0 <= j < i ==> !reaches(self.edges(), key, #[trigger] targets@[j]),
            decreases targets.len() - i,
        {
            if key_in(&closure, targets[i]) {
                assert(reaches(self.edges(), key, self.expr_targets(key, expr)[i as int]));
                let path = match self.offending_path(node, param, &expr) {
                    Some(path) => path,
                    None => Vec::new(),
                };
                return Err(Refused { error: Error::CycleDetected, path });
            }
            i += 1;
        }
        let ghost before = *self;
        let slot = self.param_mut(key);
        slot.expr = expr;
        proof {
            Self::lemma_param_replaced_wf(before, *self, key, Param { expr, ..before.param(key) });
        }
        let ghost stored = *self;
        self.relink(key, &targets);
        let ghost linked = *self;
        self.mark_dirty(&closure);
        proof {
            assert forall|q: ParamKey| #[trigger] before.has_param(q) implies self.param(q) == (Param {
                expr: if q == key {
                    expr
                } else {
                    before.param(q).expr
                },
                dirty: before.param(q).dirty || reaches(before.edges(), key, q),
                ..before.param(q)
            }) by {
                assert(stored.has_param(q));
                assert(linked.param(q) == stored.param(q));
                assert(linked.has_param(q));
            }
            assert forall|e: Edge| #[trigger] self.edges().contains(e) && self.param(e.0).dirty
                implies self.param(e.1).dirty by {
                assert(self.edges().contains((e.0, e.1)));
                assert(self.graph_keys().contains(e.0) && self.graph_keys().contains(e.1));
                assert(before.has_param(e.0) && before.has_param(e.1));
                if e.1 == key {
                    lemma_reaches_self(before.edges(), key);
                } else {
                    assert(before.edges().contains(e));
                    if !before.param(e.0).dirty {
                        lemma_reaches_step(before.edges(), key, e.0, e.1);
                    }
                }
            }
        }
        Ok(())
    }

    /// Finds the cycle that makes `set_expression` refuse an expression: a
    /// chain of parameters that begins and ends with the parameter, in
    /// which each would be read by the next if the expression were set.
    /// There is one exactly where `check_expression` says `CycleDetected`.
    pub fn offending_path(&self, node: GenericNodeId, param: ParamId, expr: &Expr) -> (res: Option<Vec<ParamKey>>)
        requires
            self.sound(),
        ensures
            res is Some <==> self.check_expression((node.raw, param), *expr) == Err::<(), Error>(
                Error::CycleDetected,
            ),
            res matches Some(cycle) ==> {
                &&& is_walk(
                    Self::relinked(self.edges(), (node.raw, param), self.expr_targets((node.raw, param), *expr)),
                    cycle@,
                )
                &&& cycle@.len() >= 2
                &&& cycle@[0] == (node.raw, param)
                &&& cycle@.last() == (node.raw, param)
            },
    {
        let key: ParamKey = (node.raw, param);
        if !self.contains_param(key) {
            return None;
        }
        let targets = match self.static_refs(node, expr.code()) {
            Ok(targets) => targets,
            Err(_) => {
                return None;
            },
        };
        let ghost e = self.edges();
        let ghost e2 = Self::relinked(e, key, targets@);
        let mut i: usize = 0;
        while i < targets.len()
            invariant
                i <= targets.len(),
                self.sound(),
                self.has_param(key),
                key == (node.raw, param),
                e == self.edges(),
                e2 == Self::relinked(e, key, targets@),
                targets@ == self.expr_targets(key, *expr),
                all_resolve(
                    self.nodes(),
                    self.root_id(),
                    GenericNodeId { raw: key.0 },
                    ref_paths(expr.source()),
                ),
                forall|j: int| 0 <= j < i ==> !reaches(e, key, #[trigger] targets@[j]),
            decreases targets.len() - i,
        {
            let t = targets[i];
            match self.walk_between(key, t) {
                Some(walk) => {
                    let mut cycle = walk;
                    let ghost w = cycle@;
                    cycle.push(key);
                    proof {
                        assert(targets@.contains(t));
                        assert(reaches(e, key, self.expr_targets(key, *expr)[i as int]));
                        assert forall|j: int|
                            0 <= j < cycle@.len() - 1
                            implies #[trigger] step_ok(e2, cycle@, j) by {
                            if j < w.len() - 1 {
                                assert(step_ok(e, w, j));
                                lemma_no_return(e, key, w, j + 1);
                                assert(cycle@[j] == w[j] && cycle@[j + 1] == w[j + 1]);
                            } else {
                                assert(cycle@[j] == t && cycle@[j + 1] == key);
                            }
                        }
                    }
                    return Some(cycle);
                },
                None => {},
            }
            i += 1;
        }
        None
    }

    /// Marks each of `keys` dirty. Nothing else changes.
    pub(crate) fn mark_dirty(&mut self, keys: &Vec<ParamKey>)
        requires
            old(self).sound(),
            forall|i: int| 0 <= i < keys.len() ==> old(self).has_param(#[trigger] keys[i]),
        ensures
            final(self).sound(),
            Self::same_shape(*old(self), *final(self)),
            final(self).edges() == old(self).edges(),
            final(self).script_runs() == old(self).script_runs(),
            forall|q: ParamKey| final(self).has_param(q) == old(self).has_param(q),
            forall|q: ParamKey| #[trigger]
                old(self).has_param(q) ==> final(self).param(q) == (if keys@.contains(q) {
                    Param { dirty: true, ..old(self).param(q) }
                } else {
                    old(self).param(q)
                }),
    {
        let mut i: usize = 0;
        while i < keys.len()
            invariant
                i <= keys.len(),
                self.sound(),
                Self::same_shape(*old(self), *self),
                self.edges() == old(self).edges(),
                self.script_runs() == old(self).script_runs(),
                forall|j: int| 0 <= j < keys.len() ==> old(self).has_param(#[trigger] keys[j]),
                forall|q: ParamKey| self.has_param(q) == old(self).has_param(q),
                forall|q: ParamKey| #[trigger]
                    old(self).has_param(q) ==> self.param(q) == (if keys@.subrange(0, i as int).contains(q) {
                        Param { dirty: true, ..old(self).param(q) }
                    } else {
                        old(self).param(q)
                    }),
            decreases keys.len() - i,
        {
            let ghost prev = *self;
            let key = keys[i];
            assert(old(self).has_param(key));
            let p = self.param_mut(key);
            p.dirty = true;
            proof {
                let now = Param { dirty: true, ..prev.param(key) };
                Self::lemma_param_replaced_wf(prev, *self, key, now);
                let a = keys@.subrange(0, i as int);
                let b = keys@.subrange(0, i + 1);
                assert(b == a.push(key));
                assert forall|q: ParamKey| #[trigger] old(self).has_param(q) implies self.param(q) == (if b.contains(q) {
                    Param { dirty: true, ..old(self).param(q) }
                } else {
                    old(self).param(q)
                }) by {
                    if q == key {
                        assert(b[i as int] == key);
                    } else {
                        assert(self.param(q) == prev.param(q));
                        if a.contains(q) {
                            let m = choose|m: int| 0 <= m < a.len() && a[m] == q;
                            assert(b[m] == q);
                        }
                        if b.contains(q) {
                            let m = choose|m: int| 0 <= m < b.len() && b[m] == q;
                            assert(a[m] == q);
                        }
                    }
                }
            }
            i += 1;
        }
        assert(keys@.subrange(0, keys.len() as int) == keys@);
    }

    /// Finds the first parameter of `node` that is called `name`. A node
    /// that is not live has no parameter.
    pub fn find_param(&self, node: GenericNodeId, name: &String) -> (res: Option<ParamId>)
        requires
            self.sound(),
        ensures
            res == (if self.has_node(node) {
                first_param_named(self.nodes()[node.raw].params@, name@)
            } else {
                None
            }),
            res is Some ==> self.has_param((node.raw, res->0)),
    {
        let rec = match self.node(node) {
            Ok(rec) => rec,
            Err(_) => {
                return None;
            },
        };
        let ghost params = rec.params@;
        let mut i: usize = 0;
        while i < rec.params.len()
            invariant
                i <= rec.params.len(),
                self.has_node(node),
                *rec == self.nodes()[node.raw],
                params == rec.params@,
                forall|j: int| 0 <= j < i ==> (#[trigger] params[j]).name@ != name@,
            decreases rec.params.len() - i,
        {
            if rec.params[i].name == *name {
                proof {
                    assert(is_first_named(params, name@, i as int));
                    let j = choose|j: int| is_first_named(params, name@, j);
                    lemma_first_named_unique(params, name@, i as int, j);
                }
                return Some(i);
            }
            i += 1;
        }
        None
    }

    /// Resolves a reference path, as seen from the node `from`, to the
    /// parameter that it names: `../A/x` is the parameter `x` of the node
    /// `../A`, and a path without `/` names a parameter of `from` itself.
    /// Fails with `IdNotFound` where `from` names no live node, and with
    /// `NameNotFound` where the path names no parameter.
    pub fn resolve_ref(&self, from: GenericNodeId, path: &str) -> (res: Result<ParamKey, Error>)
        requires
            self.sound(),
        ensures
            res == (if !self.has_node(from) {
                Err::<ParamKey, Error>(Error::IdNotFound)
            } else {
                match ref_target(self.nodes(), self.root_id(), from, path@) {
                    Some(key) => Ok::<ParamKey, Error>(key),
                    None => Err::<ParamKey, Error>(Error::NameNotFound),
                }
            }),
            res is Ok ==> self.has_param(res->Ok_0),
    {
        if !self.contains(from) {
            return Err(Error::IdNotFound);
        }
        let n = split_ref(path);
        let len = path.unicode_len();
        let node = match self.resolve_path(from, path.substring_char(0, n)) {
            Ok(node) => node,
            Err(_) => {
                return Err(Error::NameNotFound);
            },
        };
        let name = String::from_str(path.substring_char(n, len));
        match self.find_param(node, &name) {
            Some(i) => Ok((node.raw, i)),
            None => Err(Error::NameNotFound),
        }
    }

    /// Resolves the references that a source text spells out, as seen from
    /// the node `from`. Fails with `IdNotFound` where `from` names no live
    /// node, and with `NameNotFound` where one of the references names no
    /// parameter.
    pub fn static_refs(&self, from: GenericNodeId, code: &str) -> (res: Result<Vec<ParamKey>, Error>)
        requires
            self.sound(),
        ensures
            match res {
                Ok(keys) => {
                    &&& all_resolve(self.nodes(), self.root_id(), from, ref_paths(code@))
                    &&& keys@ == targets_of(self.nodes(), self.root_id(), from, ref_paths(code@))
                    &&& forall|i: int| 0 <= i < keys@.len() ==> self.has_param(#[trigger] keys@[i])
                },
                Err(e) => if self.has_node(from) {
                    e == Error::NameNotFound && !all_resolve(
                        self.nodes(),
                        self.root_id(),
                        from,
                        ref_paths(code@),
                    )
                } else {
                    e == Error::IdNotFound
                },
            },
            res is Ok ==> self.has_node(from),
    {
        if !self.contains(from) {
            return Err(Error::IdNotFound);
        }
        let paths = scan_refs(code);
        let ghost specs = ref_paths(code@);
        let mut keys: Vec<ParamKey> = Vec::new();
        let mut i: usize = 0;
        while i < paths.len()
            invariant
                self.sound(),
                self.has_node(from),
                i <= paths.len(),
                specs == ref_paths(code@),
                paths@.len() == specs.len(),
                forall|j: int| 0 <= j < paths@.len() ==> (#[trigger] paths@[j])@ == specs[j],
                keys@.len() == i,
                forall|j: int|
                    0 <= j < i ==> ref_target(self.nodes(), self.root_id(), from, #[trigger] specs[j])
                        == Some(keys@[j]),
                forall|j: int| 0 <= j < i ==> self.has_param(#[trigger] keys@[j]),
            decreases paths.len() - i,
        {
            assert(paths@[i as int]@ == specs[i as int]);
            match self.resolve_ref(from, paths[i].as_str()) {
                Ok(key) => {
                    keys.push(key);
                },
                Err(_) => {
                    assert(ref_target(self.nodes(), self.root_id(), from, specs[i as int]) is None);
                    return Err(Error::NameNotFound);
                },
            }
            i += 1;
        }
        assert(keys@ =~= targets_of(self.nodes(), self.root_id(), from, specs));
        Ok(keys)
    }
}

} // verus!
