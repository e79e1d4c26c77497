use vstd::prelude::*;
use crate::closure::key_in;
use crate::depgraph::{Edge, ParamKey};
use crate::error::Error;
use crate::eval::{
    conclude, conclude_spec, run_fresh, unknown, EvalContext, Known, Resolver,
};
use crate::expr::Value;
use crate::network::{GenericNodeId, Network};
use crate::param::{Param, ParamId};
use crate::reach::{lemma_reaches_self, reaches, reaches_from};
use crate::script::ScriptOutcome;

verus! {

/// The parameters of which `known` holds a record, in the order of the
/// records.
pub open spec fn keys_of(known: Seq<Known>) -> Seq<ParamKey> {
    Seq::new(known.len(), |i: int| known[i].0)
}

/// A list without repetition of members of a finite set is no longer than
/// the set is large.
pub proof fn lemma_room(s: Set<ParamKey>, keys: Seq<ParamKey>)
    requires
        s.finite(),
        keys.no_duplicates(),
        forall|i: int| 0 <= i < keys.len() ==> s.contains(#[trigger] keys[i]),
    ensures
        keys.len() <= s.len(),
{
    keys.unique_seq_to_set();
    assert(keys.to_set().subset_of(s)) by {
        assert forall|x: ParamKey| keys.to_set().contains(x) implies s.contains(x) by {
            let i = choose|i: int| 0 <= i < keys.len() && keys[i] == x;
            assert(s.contains(keys[i]));
        }
    }
    vstd::set_lib::lemma_len_subset(keys.to_set(), s);
}

impl<'a, C: EvalContext> Resolver<'a, C> {
    /// Ends the life of the resolver and hands out its record: the
    /// parameters used, the parameters missing, and the first failure.
    pub fn into_parts(self) -> (parts: (Vec<ParamKey>, Vec<ParamKey>, Option<Error>))
        ensures
            parts.0 == self.used,
            parts.1 == self.missing,
            parts.2 == self.failure,
    {
        (self.used, self.missing, self.failure)
    }
}

impl Network {
    /// Tells whether the parameter `key` reaches one of `targets` along the
    /// dependency edges, that is, whether one of them is `key` itself or
    /// depends on it.
    pub fn reaches_any(&self, key: ParamKey, targets: &Vec<ParamKey>) -> (hit: bool)
        requires
            self.sound(),
        ensures
            hit == exists|i: int| 0 <= i < targets@.len() && reaches(self.edges(), key, #[trigger] targets@[i]),
    {
        let mut starts: Vec<ParamKey> = Vec::new();
        starts.push(key);
        let closure = self.dependents(&starts);
        proof {
            assert forall|x: ParamKey| closure@.contains(x) <==> reaches(self.edges(), key, x) by {
                if reaches_from(self.edges(), starts@, x) {
                    let w = choose|w: int|
                        0 <= w < starts@.len() && #[trigger] reaches(self.edges(), starts@[w], x);
                    assert(starts@[w] == key);
                }
                if reaches(self.edges(), key, x) {
                    assert(reaches(self.edges(), starts@[0], x));
                }
            }
        }
        let mut i: usize = 0;
        while i < targets.len()
            invariant
                i <= targets.len(),
                forall|x: ParamKey| closure@.contains(x) <==> reaches(self.edges(), key, x),
                forall|j: int| 0 <= j < i ==> !reaches(self.edges(), key, #[trigger] targets@[j]),
            decreases targets.len() - i,
        {
            if key_in(&closure, targets[i]) {
                return true;
            }
            i += 1;
        }
        false
    }

    /// What holds of the network and of the evaluation stack after a
    /// parameter was evaluated below the parameters on the stack: the network
    /// arises by evaluation, and the parameters on the stack are untouched.
    pub open spec fn eval_frame(a: Network, b: Network, stack: Seq<ParamKey>) -> bool {
        &&& b.wf()
        &&& Self::evaluated(a, b)
        &&& forall|q: ParamKey| #[trigger] stack.contains(q) && a.has_param(q) ==> b.param(q) == a.param(q)
    }

    /// The evaluation stack holds parameters, none of them twice.
    pub open spec fn stack_ok(self, stack: Seq<ParamKey>) -> bool {
        &&& stack.no_duplicates()
        &&& forall|i: int| 0 <= i < stack.len() ==> self.has_param(#[trigger] stack[i])
    }

    /// Every record in `known` stands for a parameter and agrees with the
    /// network: the record of a clean parameter is what its cache holds, and
    /// the record of a dirty one is an error.
    pub open spec fn records_hold(self, known: Seq<Known>) -> bool {
        forall|j: int|
            0 <= j < known.len() ==> self.has_param((#[trigger] known[j]).0) && Self::answered(
                self,
                known[j].0,
                known[j].1,
            )
    }

    /// Records that hold, of parameters that are all different, are no more
    /// than there are parameters.
    pub proof fn lemma_records_fit(self, known: Seq<Known>)
        requires
            self.sound(),
            self.records_hold(known),
            keys_of(known).no_duplicates(),
        ensures
            known.len() <= self.graph_keys().len(),
    {
        assert forall|i: int| 0 <= i < keys_of(known).len() implies self.graph_keys().contains(
            #[trigger] keys_of(known)[i],
        ) by {
            assert(self.has_param(known[i].0));
        }
        lemma_room(self.graph_keys(), keys_of(known));
    }

    /// The record of a dirty parameter in `known` is an error.
    pub open spec fn records_stale(self, known: Seq<Known>) -> bool {
        forall|j: int|
            0 <= j < known.len() ==> self.has_param((#[trigger] known[j]).0) && (self.param(known[j].0).dirty
                ==> known[j].1 is Err)
    }

    /// Brings the records up to date: the record of every parameter that is
    /// clean becomes what its cache holds. A record that agreed with the
    /// network already stays as it is.
    fn renew(&self, known: &mut Vec<Known>)
        requires
            self.sound(),
            self.records_stale(old(known)@),
        ensures
            final(known)@.len() == old(known)@.len(),
            forall|j: int| 0 <= j < old(known)@.len() ==> (#[trigger] final(known)@[j]).0 == old(known)@[j].0,
            forall|j: int|
                0 <= j < old(known)@.len() && Self::answered(*self, old(known)@[j].0, old(known)@[j].1)
                    ==> #[trigger] final(known)@[j] == old(known)@[j],
            self.records_hold(final(known)@),
    {
        let mut j: usize = 0;
        while j < known.len()
            invariant
                j <= known.len(),
                self.sound(),
                known@.len() == old(known)@.len(),
                forall|n: int| 0 <= n < known@.len() ==> (#[trigger] known@[n]).0 == old(known)@[n].0,
                forall|n: int| j <= n < known@.len() ==> #[trigger] known@[n] == old(known)@[n],
                forall|n: int|
                    0 <= n < j && Self::answered(*self, old(known)@[n].0, old(known)@[n].1)
                        ==> #[trigger] known@[n] == old(known)@[n],
                self.records_stale(old(known)@),
                self.records_hold(known@.take(j as int)),
            decreases known.len() - j,
        {
            let key = known[j].0;
            let ghost seen = known@;
            assert(self.has_param(old(known)@[j as int].0));
            match self.get_param(GenericNodeId { raw: key.0 }, key.1) {
                Ok(p) => {
                    if !p.dirty {
                        let held = p.cached();
                        known.set(j, (key, held));
                    }
                },
                Err(_) => {},
            }
            proof {
                assert(self.param(key).dirty ==> known@[j as int] == old(known)@[j as int]);
                assert forall|n: int| 0 <= n < j + 1 implies self.has_param(
                    (#[trigger] known@.take(j + 1)[n]).0,
                ) && Self::answered(*self, known@.take(j + 1)[n].0, known@.take(j + 1)[n].1) by {
                    if n < j {
                        assert(known@.take(j + 1)[n] == seen.take(j as int)[n]);
                    }
                }
            }
            j += 1;
        }
        proof {
            assert(known@.take(j as int) == known@);
        }
    }

    /// Evaluates each of `keys` in turn and appends the results to `known`,
    /// in which every record is kept up to date.
    fn follow<C: EvalContext>(
        &mut self,
        keys: &Vec<ParamKey>,
        ctx: &C,
        stack: &mut Vec<ParamKey>,
        known: &mut Vec<Known>,
    )
        requires
            old(self).wf(),
            old(self).stack_ok(old(stack)@),
            forall|i: int| 0 <= i < keys@.len() ==> old(self).has_param(#[trigger] keys@[i]),
            old(self).records_hold(old(known)@),
        ensures
            Self::eval_frame(*old(self), *final(self), old(stack)@),
            final(stack)@ == old(stack)@,
            final(known)@.len() == old(known)@.len() + keys@.len(),
            keys_of(final(known)@) == keys_of(old(known)@) + keys@,
            forall|i: int|
                0 <= i < old(known)@.len() && !old(self).param(old(known)@[i].0).dirty
                    ==> #[trigger] final(known)@[i] == old(known)@[i],
            final(self).records_hold(final(known)@),
        decreases old(self).graph_keys().len() - old(stack)@.len(), 1int,
    {
        let mut i: usize = 0;
        proof {
            Self::lemma_evaluated_refl(*self);
            assert(keys_of(known@) =~= keys_of(old(known)@) + keys@.take(0));
        }
        while i < keys.len()
            invariant
                i <= keys.len(),
                Self::eval_frame(*old(self), *self, old(stack)@),
                old(self).wf(),
                old(self).stack_ok(old(stack)@),
                stack@ == old(stack)@,
                known@.len() == old(known)@.len() + i,
                forall|j: int| 0 <= j < keys@.len() ==> old(self).has_param(#[trigger] keys@[j]),
                old(self).records_hold(old(known)@),
                keys_of(known@) == keys_of(old(known)@) + keys@.take(i as int),
                forall|j: int|
                    0 <= j < old(known)@.len() && !old(self).param(old(known)@[j].0).dirty
                        ==> #[trigger] known@[j] == old(known)@[j],
                self.records_hold(known@),
            decreases keys.len() - i,
        {
            let ghost prev = *self;
            let ghost seen = known@;
            let k = keys[i];
            proof {
                Self::lemma_same_shape_params(*old(self), prev);
            }
            let v = self.eval_key(k, ctx, stack);
            known.push((k, v));
            let ghost pushed = known@;
            proof {
                Self::lemma_evaluated_trans(*old(self), prev, *self);
                Self::lemma_same_shape_params(prev, *self);
                assert forall|j: int| 0 <= j < pushed.len() implies self.has_param((#[trigger] pushed[j]).0) && (
                self.param(pushed[j].0).dirty ==> pushed[j].1 is Err) by {
                    if j < seen.len() {
                        assert(pushed[j] == seen[j]);
                        assert(prev.has_param(seen[j].0));
                    }
                }
                assert forall|q: ParamKey|
                    #[trigger] old(stack)@.contains(q) && old(self).has_param(q)
                    implies self.param(q) == old(self).param(q) by {
                    assert(prev.has_param(q));
                }
            }
            self.renew(known);
            proof {
                assert forall|j: int|
                    0 <= j < old(known)@.len() && !old(self).param(old(known)@[j].0).dirty
                    implies #[trigger] known@[j] == old(known)@[j] by {
                    assert(pushed[j] == seen[j]);
                    assert(old(self).has_param(old(known)@[j].0));
                }
                assert(keys_of(known@) =~= keys_of(old(known)@) + keys@.take(i + 1)) by {
                    assert(keys_of(seen) == keys_of(old(known)@) + keys@.take(i as int));
                    assert forall|j: int| 0 <= j < known@.len() implies keys_of(known@)[j] == (keys_of(
                        old(known)@,
                    ) + keys@.take(i + 1))[j] by {
                        assert(known@[j].0 == pushed[j].0);
                        if j < seen.len() {
                            assert(pushed[j] == seen[j]);
                            assert(keys_of(seen)[j] == seen[j].0);
                        }
                    }
                }
            }
            i += 1;
        }
        proof {
            assert(keys@.take(i as int) == keys@);
        }
    }

    /// Tells whether every one of `keys` is clean.
    fn all_clean(&self, keys: &Vec<ParamKey>) -> (clean: bool)
        requires
            self.sound(),
        ensures
            clean == forall|i: int|
                0 <= i < keys@.len() ==> self.has_param(#[trigger] keys@[i]) && !self.param(keys@[i]).dirty,
    {
        let mut i: usize = 0;
        while i < keys.len()
            invariant
                i <= keys.len(),
                self.sound(),
                forall|j: int| 0 <= j < i ==> self.has_param(#[trigger] keys@[j]) && !self.param(keys@[j]).dirty,
            decreases keys.len() - i,
        {
            match self.get_param(GenericNodeId { raw: keys[i].0 }, keys[i].1) {
                Ok(p) => {
                    if p.dirty {
                        return false;
                    }
                },
                Err(_) => {
                    return false;
                },
            }
            i += 1;
        }
        true
    }

    /// Every one of `keys` names a parameter.
    pub open spec fn all_params(self, keys: Seq<ParamKey>) -> bool {
        forall|i: int| 0 <= i < keys.len() ==> self.has_param(#[trigger] keys[i])
    }

    /// Every one of `keys` names a clean parameter.
    pub open spec fn all_settled(self, keys: Seq<ParamKey>) -> bool {
        forall|i: int| 0 <= i < keys.len() ==> self.has_param(#[trigger] keys[i]) && !self.param(keys[i]).dirty
    }

    /// The parameter `key` reaches one of `keys` along the dependency edges.
    pub open spec fn reaches_one(self, key: ParamKey, keys: Seq<ParamKey>) -> bool {
        exists|i: int| 0 <= i < keys.len() && reaches(self.edges(), key, #[trigger] keys[i])
    }

    /// Whether `finish` takes what a script read as the dependencies of the
    /// dirty parameter `key`: all that was read are parameters, and `key`
    /// reaches none of them.
    pub open spec fn takes(self, key: ParamKey, used: Seq<ParamKey>) -> bool {
        &&& self.has_param(key)
        &&& self.param(key).dirty
        &&& self.all_params(used)
        &&& !self.reaches_one(key, used)
    }

    /// What `finish` returns.
    pub open spec fn finish_result(
        self,
        key: ParamKey,
        out: ScriptOutcome,
        used: Seq<ParamKey>,
        failure: Option<Error>,
    ) -> Result<Value, Error> {
        if !self.has_param(key) {
            Err(Error::IdNotFound)
        } else if !self.param(key).dirty {
            self.param(key).cached
        } else if !self.all_params(used) {
            Err(Error::IdNotFound)
        } else if self.reaches_one(key, used) {
            Err(Error::CycleDetected)
        } else if self.all_settled(used) {
            conclude_spec(out, failure)
        } else {
            match failure {
                Some(e) => Err(e),
                None => Err(Error::Other),
            }
        }
    }

    /// What `finish` leaves behind where it takes the dependencies: the
    /// edges into `key` come from exactly what was read; where all that was
    /// read is clean, `key` is clean, holds the result and has on record
    /// what was read; nothing else differs.
    pub open spec fn finished(
        a: Network,
        b: Network,
        key: ParamKey,
        out: ScriptOutcome,
        used: Vec<ParamKey>,
        failure: Option<Error>,
    ) -> bool {
        &&& Self::same_shape(a, b)
        &&& b.script_runs() == a.script_runs()
        &&& b.edges() == Self::relinked(a.edges(), key, used@)
        &&& forall|q: ParamKey| #[trigger] a.has_param(q) && q != key ==> b.param(q) == a.param(q)
        &&& b.param(key) == (if a.all_settled(used@) {
            Param { cached: conclude_spec(out, failure), dirty: false, refs: used, ..a.param(key) }
        } else {
            a.param(key)
        })
    }

    /// Ends the evaluation of the dirty parameter `key`, given what came out
    /// of its script, `out`, what the script read, `used`, and the first
    /// lookup that failed, `failure`.
    ///
    /// What was read becomes what the parameter depends on, unless one of
    /// them is `key` itself or depends on it: then nothing changes and the
    /// result is `CycleDetected`. Where all that was read is clean, the
    /// result is what `conclude` makes of `out` and `failure`; it is cached,
    /// and the parameter is clean. Where one of them is still dirty, the
    /// parameter stays dirty and the result is the failure, or `Other`
    /// where none was noted. A parameter that is clean already is answered
    /// from its cache, and a key that names no parameter with
    /// `IdNotFound`, as is a record of something read that is no parameter;
    /// nothing changes then.
    pub fn finish(&mut self, key: ParamKey, out: ScriptOutcome, used: Vec<ParamKey>, failure: Option<Error>) -> (res:
        Result<Value, Error>)
        requires
            old(self).wf(),
        ensures
            final(self).wf(),
            res == old(self).finish_result(key, out, used@, failure),
            if old(self).takes(key, used@) {
                Self::finished(*old(self), *final(self), key, out, used, failure)
            } else {
                *final(self) == *old(self)
            },
    {
        match self.get_param(GenericNodeId { raw: key.0 }, key.1) {
            Ok(p) => {
                if !p.dirty {
                    return p.cached();
                }
            },
            Err(e) => {
                return Err(e);
            },
        }
        let mut i: usize = 0;
        while i < used.len()
            invariant
                i <= used.len(),
                self.wf(),
                *self == *old(self),
                self.has_param(key),
                self.param(key).dirty,
                forall|j: int| 0 <= j < i ==> self.has_param(#[trigger] used@[j]),
            decreases used.len() - i,
        {
            if !self.contains_param(used[i]) {
                return Err(Error::IdNotFound);
            }
            i += 1;
        }
        if self.reaches_any(key, &used) {
            return Err(Error::CycleDetected);
        }
        let ready = self.all_clean(&used);
        let ghost before = *self;
        self.relink(key, &used);
        let ghost wired = *self;
        proof {
            assert(wired.param(key) == before.param(key));
            assert(wired.settled()) by {
                assert forall|e: Edge| #[trigger] wired.edges().contains(e) && wired.param(e.0).dirty
                    implies wired.param(e.1).dirty by {
                    if e.1 != key {
                        assert(before.edges().contains(e));
                    }
                }
            }
        }
        if ready {
            let result = conclude(out, failure);
            let stored = match &result {
                Ok(v) => Ok(v.clone()),
                Err(e) => Err(e.clone()),
            };
            let slot = self.param_mut(key);
            slot.cached = stored;
            slot.dirty = false;
            slot.refs = used;
            proof {
                Self::lemma_param_replaced_wf(wired, *self, key, self.param(key));
                assert(self.settled()) by {
                    assert forall|e: Edge| #[trigger] self.edges().contains(e) && self.param(e.0).dirty
                        implies self.param(e.1).dirty by {
                        assert(wired.edges().contains((e.0, e.1)));
                        assert(wired.graph_keys().contains(e.0) && wired.graph_keys().contains(e.1));
                        if e.1 == key {
                            assert(used@.contains(e.0));
                            let i = choose|i: int| 0 <= i < used@.len() && used@[i] == e.0;
                            assert(!before.param(used@[i]).dirty);
                        } else {
                            assert(self.param(e.1) == wired.param(e.1));
                        }
                    }
                }
            }
            result
        } else {
            match failure {
                Some(e) => Err(e),
                None => Err(Error::Other),
            }
        }
    }

    /// Where `finish` leaves a dirty parameter dirty, it has failed with
    /// `CycleDetected`, or the parameter now depends on one that is dirty.
    pub proof fn lemma_finish_held_back(
        a: Network,
        b: Network,
        key: ParamKey,
        out: ScriptOutcome,
        used: Vec<ParamKey>,
        failure: Option<Error>,
    )
        requires
            a.has_param(key),
            a.param(key).dirty,
            a.all_params(used@),
            if a.takes(key, used@) {
                Self::finished(a, b, key, out, used, failure)
            } else {
                b == a
            },
        ensures
            Self::held_back(b, key, a.finish_result(key, out, used@, failure)),
    {
        if a.takes(key, used@) && !a.all_settled(used@) {
            let i = choose|i: int| 0 <= i < used@.len() && !(a.has_param(#[trigger] used@[i]) && !a.param(used@[i]).dirty);
            assert(a.has_param(used@[i]));
            assert(used@[i] != key) by {
                if used@[i] == key {
                    lemma_reaches_self(a.edges(), key);
                    assert(reaches(a.edges(), key, used@[i]));
                }
            }
            assert(b.param(used@[i]) == a.param(used@[i]));
            assert(used@.contains(used@[i]));
            assert(b.edges().contains((used@[i], key)));
        }
    }

    /// The last step of an evaluation, from `r` to `f`, touches the
    /// parameter `key` and the edges into it alone, and runs no script.
    pub open spec fn last_step(r: Network, f: Network, key: ParamKey) -> bool {
        &&& Self::same_shape(r, f)
        &&& f.script_runs() == r.script_runs()
        &&& forall|q: ParamKey| #[trigger] r.has_param(q) && q != key ==> f.param(q) == r.param(q)
        &&& f.param(key).name == r.param(key).name
        &&& f.param(key).expr == r.param(key).expr
        &&& forall|x: Edge| x.1 != key ==> (#[trigger] f.edges().contains(x) <==> r.edges().contains(x))
        &&& !f.param(key).dirty ==> f.reads_recorded(key)
    }

    /// Evaluating parameters and then ending the evaluation of a dirty one,
    /// for which a script was run, is evaluating.
    pub proof fn lemma_finish_evaluated(a: Network, r: Network, f: Network, key: ParamKey)
        requires
            a.sound(),
            r.sound(),
            f.sound(),
            Self::evaluated(a, r),
            a.has_param(key),
            a.param(key).dirty,
            r.param(key) == a.param(key),
            Self::ran(a, r),
            Self::last_step(r, f, key),
        ensures
            Self::evaluated(a, f),
    {
        Self::lemma_same_shape_params(a, r);
        Self::lemma_same_shape_params(r, f);
        assert forall|k: u64| #[trigger] a.nodes().dom().contains(k) implies {
            &&& f.nodes()[k].name == a.nodes()[k].name
            &&& f.nodes()[k].parent == a.nodes()[k].parent
            &&& f.nodes()[k].children == a.nodes()[k].children
            &&& f.nodes()[k].depth == a.nodes()[k].depth
            &&& f.nodes()[k].outputs == a.nodes()[k].outputs
            &&& f.nodes()[k].params@.len() == a.nodes()[k].params@.len()
        } by {
            assert(r.nodes().dom().contains(k));
        }
        assert forall|q: ParamKey| #[trigger] a.has_param(q) implies {
            &&& f.param(q).name == a.param(q).name
            &&& f.param(q).expr == a.param(q).expr
            &&& !a.param(q).dirty ==> f.param(q) == a.param(q)
        } by {
            assert(r.has_param(q));
        }
        assert forall|x: Edge| #[trigger] f.edges().contains(x) implies a.edges().contains(x)
            || a.param(x.1).dirty by {
            if x.1 != key {
                assert(r.edges().contains(x));
            }
        }
        assert forall|x: Edge| #[trigger] a.edges().contains(x) implies f.edges().contains(x)
            || a.param(x.1).dirty by {
            if x.1 != key {
                assert(a.edges().contains((x.0, x.1)));
                assert(a.graph_keys().contains(x.1));
                if !a.param(x.1).dirty {
                    assert(r.edges().contains(x));
                }
            }
        }
        assert forall|q: ParamKey| #[trigger]
            a.has_param(q) && a.param(q).dirty && !f.param(q).dirty
            implies f.reads_recorded(q) && Self::ran(a, f) by {
            assert(r.has_param(q));
            if q != key {
                assert(f.param(q) == r.param(q));
                assert(r.reads_recorded(q));
                assert forall|x: ParamKey|
                    #[trigger] f.edges().contains((x, q)) <==> f.param(q).refs@.contains(x) by {
                    assert(r.edges().contains((x, q)) <==> r.param(q).refs@.contains(x));
                }
            }
        }
    }

    /// What an evaluation leaves behind for the parameter `key`: either the
    /// parameter is clean and `res` is what its cache holds, or the
    /// parameter is still dirty and `res` is the error that stood in the way.
    pub open spec fn answered(net: Network, key: ParamKey, res: Result<Value, Error>) -> bool {
        if net.param(key).dirty {
            res is Err
        } else {
            net.param(key).cached == res
        }
    }

    /// The parameter `key` depends on a parameter that is dirty.
    pub open spec fn waits(self, key: ParamKey) -> bool {
        exists|x: ParamKey| #[trigger] self.edges().contains((x, key)) && self.param(x).dirty
    }

    /// Why an evaluation may leave the parameter `key` dirty: it failed with
    /// `CycleDetected`, or the parameter depends on one that is still dirty.
    pub open spec fn held_back(net: Network, key: ParamKey, res: Result<Value, Error>) -> bool {
        net.param(key).dirty ==> res == Err::<Value, Error>(Error::CycleDetected) || net.waits(key)
    }

    /// Evaluates the parameter `key`, unless it is clean or is being
    /// evaluated already (it is on the stack).
    ///
    /// The expression is run with the records of what it depends on. Where
    /// it refers to a parameter of which there is no record yet, that
    /// parameter is evaluated and the expression is run again; every such
    /// run adds a record, and there are no more records than parameters.
    ///
    /// Where the script has run with all its references answered, what it
    /// read becomes what the parameter depends on, unless that would close a
    /// cycle. The result is cached, and the parameter clean, where these
    /// dependencies are on record and all of them are clean; otherwise the
    /// parameter stays dirty and the result is an error.
    fn eval_key<C: EvalContext>(
        &mut self,
        key: ParamKey,
        ctx: &C,
        stack: &mut Vec<ParamKey>,
    ) -> (res: Result<Value, Error>)
        requires
            old(self).wf(),
            old(self).has_param(key),
            old(self).stack_ok(old(stack)@),
        ensures
            Self::eval_frame(*old(self), *final(self), old(stack)@),
            final(stack)@ == old(stack)@,
            !old(self).param(key).dirty ==> *final(self) == *old(self) && res == old(self).param(key).cached,
            Self::answered(*final(self), key, res),
            old(self).param(key).dirty ==> Self::held_back(*final(self), key, res),
            old(self).param(key).dirty && !old(stack)@.contains(key) ==> Self::ran(*old(self), *final(self)),
        decreases old(self).graph_keys().len() - old(stack)@.len(), 0int,
    {
        let node = GenericNodeId { raw: key.0 };
        proof {
            Self::lemma_evaluated_refl(*self);
        }
        let expr = match self.get_param(node, key.1) {
            Ok(p) => {
                if !p.dirty {
                    return p.cached();
                }
                p.expr.clone()
            },
            Err(e) => {
                return Err(e);
            },
        };
        if key_in(stack, key) {
            return Err(Error::CycleDetected);
        }
        stack.push(key);
        let ghost inner = stack@;
        let ghost all = self.graph_keys();
        proof {
            assert(self.stack_ok(inner)) by {
                assert forall|i: int, j: int| 0 <= i < j < inner.len() implies inner[i] != inner[j] by {
                    if j == inner.len() - 1 {
                        assert(old(stack)@.contains(inner[i]));
                    }
                }
            }
            lemma_room(all, inner);
        }
        let mut known: Vec<Known> = Vec::new();
        let deps = self.dependencies(key);
        proof {
            assert(keys_of(known@) =~= Seq::<ParamKey>::empty());
        }
        self.follow(&deps, ctx, stack, &mut known);
        let mut done = false;
        let mut out = ScriptOutcome::Unsupported;
        let mut used: Vec<ParamKey> = Vec::new();
        let mut failure: Option<Error> = None;
        proof {
            Self::lemma_same_shape_params(*old(self), *self);
            assert(inner.contains(key)) by {
                assert(inner[inner.len() - 1] == key);
            }
        }
        proof {
            assert(keys_of(known@) =~= deps@);
            Self::lemma_same_shape_params(*old(self), *self);
            self.lemma_records_fit(known@);
        }
        while !done
            invariant
                all == old(self).graph_keys(),
                all == self.graph_keys(),
                inner.len() <= all.len(),
                known@.len() <= all.len(),
                self.stack_ok(inner),
                old(self).stack_ok(old(stack)@),
                keys_of(known@).no_duplicates(),
                old(self).wf(),
                old(self).has_param(key),
                node == (GenericNodeId { raw: key.0 }),
                Self::eval_frame(*old(self), *self, inner),
                self.has_param(key),
                stack@ == inner,
                inner == old(stack)@.push(key),
                self.records_hold(known@),
                forall|j: int| 0 <= j < used@.len() ==> self.has_param(#[trigger] used@[j]),
                done ==> Self::ran(*old(self), *self),
            decreases
                    (if done {
                        0
                    } else {
                        1 + all.len() - known@.len()
                    }),
        {
            let ghost prev = *self;
            let ghost seen = known@;
            let mut r = Resolver::new(ctx, Some(&*self), node, &known);
            out = run_fresh(expr.code(), &mut r);
            let parts = r.into_parts();
            let missing = parts.1;
            self.count_run();
            proof {
                Self::lemma_same_shape_params(prev, *self);
                assert(Self::evaluated(prev, *self));
                assert(self.wf()) by {
                    assert(self.nodes() == prev.nodes());
                }
                Self::lemma_evaluated_trans(*old(self), prev, *self);
            }
            if missing.len() == 0 {
                used = parts.0;
                failure = parts.2;
                done = true;
            } else {
                let ghost mid = *self;
                proof {
                    assert(mid.stack_ok(inner)) by {
                        assert forall|i: int| 0 <= i < inner.len() implies mid.has_param(#[trigger] inner[i]) by {
                            assert(prev.has_param(inner[i]));
                        }
                    }
                }
                self.follow(&missing, ctx, stack, &mut known);
                proof {
                    Self::lemma_same_shape_params(mid, *self);
                    assert(self.stack_ok(inner)) by {
                        assert forall|i: int| 0 <= i < inner.len() implies self.has_param(#[trigger] inner[i]) by {
                            assert(mid.has_param(inner[i]));
                        }
                    }
                    assert(keys_of(known@) =~= keys_of(seen) + missing@);
                    assert forall|i: int, j: int| 0 <= i < j < keys_of(known@).len() implies keys_of(known@)[i]
                        != keys_of(known@)[j] by {
                        if j >= seen.len() {
                            if i >= seen.len() {
                                assert(missing@[i - seen.len()] != missing@[j - seen.len()]);
                            } else {
                                assert(unknown(seen, missing@[j - seen.len()]));
                                assert(seen[i].0 != missing@[j - seen.len()]);
                            }
                        } else {
                            assert(keys_of(seen)[i] != keys_of(seen)[j]);
                        }
                    }
                    self.lemma_records_fit(known@);
                    Self::lemma_evaluated_trans(*old(self), mid, *self);
                    assert forall|q: ParamKey|
                        #[trigger] inner.contains(q) && old(self).has_param(q)
                        implies self.param(q) == old(self).param(q) by {
                        assert(mid.has_param(q));
                    }
                }
            }
        }
        stack.pop();
        assert(stack@ == old(stack)@);
        let ghost ran = *self;
        proof {
            assert(ran.param(key) == old(self).param(key));
        }
        let ghost read = used;
        let result = self.finish(key, out, used, failure);
        proof {
            Self::lemma_finish_held_back(ran, *self, key, out, read, failure);
            Self::lemma_same_shape_params(*old(self), ran);
            Self::lemma_finish_evaluated(*old(self), ran, *self, key);
            assert forall|q: ParamKey|
                #[trigger] old(stack)@.contains(q) && old(self).has_param(q)
                implies self.param(q) == old(self).param(q) by {
                assert(inner.contains(q)) by {
                    let j = choose|j: int| 0 <= j < old(stack)@.len() && old(stack)@[j] == q;
                    assert(inner[j] == q);
                }
                assert(q != key);
                assert(ran.has_param(q));
            }
        }
        result
    }

    /// What a read of the parameter `key` does: it takes the network from
    /// `a` to `b` and gives `res`.
    ///
    /// Where there is no such parameter, the read fails with `IdNotFound`
    /// and nothing changes. Otherwise the network changes by evaluation
    /// only. Either the parameter is clean afterwards and `res` is what its
    /// cache then holds, or it is still dirty and `res` is the error that
    /// stood in the way. A parameter that was clean already is answered
    /// from its cache: nothing changes, and no script runs. For a parameter
    /// that was dirty, a script is run, and the parameter is left dirty
    /// only where the read fails with `CycleDetected` or the parameter
    /// depends on one that is still dirty.
    pub open spec fn read(a: Network, b: Network, key: ParamKey, res: Result<Value, Error>) -> bool {
        &&& b.wf()
        &&& Self::evaluated(a, b)
        &&& if a.has_param(key) {
            &&& Self::answered(b, key, res)
            &&& !a.param(key).dirty ==> b == a
            &&& a.param(key).dirty ==> Self::ran(a, b) && Self::held_back(b, key, res)
        } else {
            b == a && res == Err::<Value, Error>(Error::IdNotFound)
        }
    }

    /// Returns the value of a parameter, evaluating it first where it is
    /// dirty.
    ///
    /// A clean parameter is answered from its cache: nothing changes and no
    /// script runs. A dirty one is evaluated after the dirty parameters that
    /// it depends on, those first that are furthest from it. The parameters
    /// that the expression read become its dependencies, and the result, a
    /// failure of the expression included, is cached: the parameter is
    /// clean from then on. Every reference is answered with what the cache
    /// of the parameter that it names holds, once that parameter is clean.
    /// Where a cycle of references stands in the way, the read fails and
    /// the parameter stays dirty, so that a later read tries again. Fails
    /// with `IdNotFound`, and changes nothing, where there is no such
    /// parameter.
    pub fn value<C: EvalContext>(&mut self, node: GenericNodeId, param: ParamId, ctx: &C) -> (res: Result<
        Value,
        Error,
    >)
        requires
            old(self).wf(),
        ensures
            Self::read(*old(self), *final(self), (node.raw, param), res),
    {
        let key: ParamKey = (node.raw, param);
        if !self.contains_param(key) {
            proof {
                Self::lemma_evaluated_refl(*self);
            }
            return Err(Error::IdNotFound);
        }
        self.settle(key, ctx)
    }

    /// Evaluates the parameter `key`, where it is dirty, after the dirty
    /// parameters that it depends on, those first that are furthest from
    /// it.
    fn settle<C: EvalContext>(&mut self, key: ParamKey, ctx: &C) -> (res: Result<Value, Error>)
        requires
            old(self).wf(),
            old(self).has_param(key),
        ensures
            Self::read(*old(self), *final(self), key, res),
    {
        proof {
            Self::lemma_evaluated_refl(*self);
        }
        match self.get_param(GenericNodeId { raw: key.0 }, key.1) {
            Ok(p) => {
                if !p.dirty {
                    return p.cached();
                }
            },
            Err(e) => {
                return Err(e);
            },
        }
        let order = self.upstream(key);
        let mut stack: Vec<ParamKey> = Vec::new();
        let mut i: usize = order.len();
        while i > 0
            invariant
                i <= order.len(),
                old(self).wf(),
                old(self).has_param(key),
                self.wf(),
                Self::evaluated(*old(self), *self),
                stack@.len() == 0,
                forall|j: int| 0 <= j < order@.len() ==> old(self).has_param(#[trigger] order@[j]),
            decreases i,
        {
            i -= 1;
            let ghost prev = *self;
            proof {
                Self::lemma_same_shape_params(*old(self), prev);
            }
            let _ = self.eval_key(order[i], ctx, &mut stack);
            proof {
                Self::lemma_evaluated_trans(*old(self), prev, *self);
            }
        }
        let ghost prev = *self;
        proof {
            Self::lemma_same_shape_params(*old(self), prev);
        }
        let res = self.eval_key(key, ctx, &mut stack);
        proof {
            Self::lemma_evaluated_trans(*old(self), prev, *self);
        }
        res
    }

    /// Evaluates every dirty parameter of the network, in the order that
    /// `refresh_order` gives: each after the dirty parameters that it
    /// depends on. Returns the parameters that are still dirty afterwards,
    /// because a cycle of references stood in the way of their evaluation.
    pub fn refresh<C: EvalContext>(&mut self, ctx: &C) -> (left: Vec<ParamKey>)
        requires
            old(self).wf(),
        ensures
            final(self).wf(),
            Self::evaluated(*old(self), *final(self)),
            left@.no_duplicates(),
            forall|q: ParamKey|
                #[trigger] left@.contains(q) <==> final(self).has_param(q) && final(self).param(q).dirty,
            forall|q: ParamKey|
                #[trigger] old(self).has_param(q) && old(self).param(q).dirty ==> Self::ran(
                    *old(self),
                    *final(self),
                ),
    {
        let order = self.refresh_order();
        let mut n: usize = 0;
        proof {
            Self::lemma_evaluated_refl(*self);
        }
        while n < order.len()
            invariant
                n <= order.len(),
                old(self).wf(),
                self.wf(),
                Self::evaluated(*old(self), *self),
                forall|q: ParamKey|
                    #[trigger] order@.contains(q) <==> old(self).has_param(q) && old(self).param(q).dirty,
                n > 0 ==> Self::ran(*old(self), *self),
            decreases order.len() - n,
        {
            let ghost prev = *self;
            let q = order[n];
            proof {
                assert(order@.contains(q));
                Self::lemma_same_shape_params(*old(self), prev);
            }
            let _ = self.settle(q, ctx);
            proof {
                Self::lemma_evaluated_trans(*old(self), prev, *self);
                assert(Self::ran(*old(self), *self)) by {
                    if prev.param(q).dirty {
                        assert(Self::ran(prev, *self));
                    } else {
                        assert(Self::ran(*old(self), prev));
                    }
                }
            }
            n += 1;
        }
        proof {
            assert forall|q: ParamKey| #[trigger] old(self).has_param(q) && old(self).param(q).dirty
                implies Self::ran(*old(self), *self) by {
                assert(order@.contains(q));
            }
        }
        self.dirty_params()
    }

    /// The dependencies of the parameter `key` are what its last evaluation
    /// read: the edges into it come from exactly the parameters that it has
    /// on record.
    pub open spec fn reads_recorded(self, key: ParamKey) -> bool {
        forall|x: ParamKey|
            #[trigger] self.edges().contains((x, key)) <==> self.param(key).refs@.contains(x)
    }

    /// Between `a` and `b` a script was run: the count of script runs has
    /// grown, or stands at its bound.
    pub open spec fn ran(a: Network, b: Network) -> bool {
        b.script_runs() > a.script_runs() || b.script_runs() == u64::MAX
    }

    /// `b` arises from `a` by evaluating parameters: the nodes, and the name
    /// and expression of every parameter, are the same; a parameter that was
    /// clean is untouched, and so are the edges into it; a parameter that
    /// has become clean depends on what it has on record, and a script was
    /// run for it; no script run is forgotten.
    pub open spec fn evaluated(a: Network, b: Network) -> bool {
        &&& Self::same_shape(a, b)
        &&& b.script_runs() >= a.script_runs()
        &&& forall|q: ParamKey| #[trigger]
            a.has_param(q) ==> {
                &&& b.param(q).name == a.param(q).name
                &&& b.param(q).expr == a.param(q).expr
                &&& !a.param(q).dirty ==> b.param(q) == a.param(q)
            }
        &&& forall|x: Edge| #[trigger]
            b.edges().contains(x) ==> a.edges().contains(x) || a.param(x.1).dirty
        &&& forall|x: Edge| #[trigger]
            a.edges().contains(x) ==> b.edges().contains(x) || a.param(x.1).dirty
        &&& forall|q: ParamKey| #[trigger]
            a.has_param(q) && a.param(q).dirty && !b.param(q).dirty ==> b.reads_recorded(q)
                && Self::ran(a, b)
    }

    /// Networks of the same shape have the same parameters.
    pub proof fn lemma_same_shape_params(a: Network, b: Network)
        requires
            Self::same_shape(a, b),
        ensures
            forall|q: ParamKey| a.has_param(q) == b.has_param(q),
    {
        assert forall|q: ParamKey| a.has_param(q) == b.has_param(q) by {
            if a.nodes().dom().contains(q.0) {
                assert(b.nodes()[q.0].params@.len() == a.nodes()[q.0].params@.len());
            }
        }
    }

    /// Evaluating nothing is evaluating.
    pub proof fn lemma_evaluated_refl(a: Network)
        ensures
            Self::evaluated(a, a),
    {
    }

    /// Evaluating twice is evaluating.
    pub proof fn lemma_evaluated_trans(a: Network, b: Network, c: Network)
        requires
            a.sound(),
            b.sound(),
            c.sound(),
            Self::evaluated(a, b),
            Self::evaluated(b, c),
        ensures
            Self::evaluated(a, c),
    {
        Self::lemma_same_shape_params(a, b);
        Self::lemma_same_shape_params(b, c);
        assert forall|k: u64| #[trigger] a.nodes().dom().contains(k) implies {
            &&& c.nodes()[k].name == a.nodes()[k].name
            &&& c.nodes()[k].parent == a.nodes()[k].parent
            &&& c.nodes()[k].children == a.nodes()[k].children
            &&& c.nodes()[k].depth == a.nodes()[k].depth
            &&& c.nodes()[k].outputs == a.nodes()[k].outputs
            &&& c.nodes()[k].params@.len() == a.nodes()[k].params@.len()
        } by {
            assert(b.nodes().dom().contains(k));
        }
        assert forall|q: ParamKey| #[trigger] a.has_param(q) implies {
            &&& c.param(q).name == a.param(q).name
            &&& c.param(q).expr == a.param(q).expr
            &&& !a.param(q).dirty ==> c.param(q) == a.param(q)
        } by {
            assert(b.has_param(q));
        }
        assert forall|x: Edge| #[trigger] c.edges().contains(x) implies a.edges().contains(x)
            || a.param(x.1).dirty by {
            assert(c.edges().contains((x.0, x.1)));
            assert(c.graph_keys().contains(x.1));
            assert(c.has_param(x.1));
            assert(b.has_param(x.1));
            assert(a.has_param(x.1));
        }
        assert forall|q: ParamKey| #[trigger]
            a.has_param(q) && a.param(q).dirty && !c.param(q).dirty
            implies c.reads_recorded(q) && Self::ran(a, c) by {
            assert(b.has_param(q));
            if !b.param(q).dirty {
                assert(c.param(q) == b.param(q));
                assert(b.reads_recorded(q));
                assert forall|x: ParamKey|
                    #[trigger] c.edges().contains((x, q)) <==> c.param(q).refs@.contains(x) by {
                    assert(b.edges().contains((x, q)) <==> b.param(q).refs@.contains(x));
                }
            }
        }
        assert forall|x: Edge| #[trigger] a.edges().contains(x) implies c.edges().contains(x)
            || a.param(x.1).dirty by {
            assert(a.edges().contains((x.0, x.1)));
            assert(a.graph_keys().contains(x.1));
            assert(a.has_param(x.1));
            if !a.param(x.1).dirty {
                assert(b.edges().contains(x));
                assert(b.param(x.1) == a.param(x.1));
            }
        }
    }
}

} // verus!
