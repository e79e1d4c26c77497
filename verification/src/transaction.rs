use vstd::prelude::*;
use crate::batch::{edited, keys_distinct, Edit};
use crate::depgraph::ParamKey;
use crate::error::{Error, Refused};
use crate::expr::{Expr, Value};
use crate::laws::lemma_copy_checks;
use crate::network::{kind_name, GenericNodeId, Network, Node};
use crate::param::ParamId;
use crate::reach::{acyclic, closed_walk};

verus! {

/// A batch of edits that becomes visible as a whole, or not at all.
///
/// The edits are made to a draft, a copy of the network taken when the
/// transaction began. The network itself is borrowed for as long as the
/// transaction lives and stays as it was until `commit` puts the draft in
/// its place.
pub struct Transaction<'a> {
    /// The network that the transaction is for.
    pub network: &'a mut Network,
    /// The network as it will be after the commit, but for the pending
    /// expressions.
    pub draft: Network,
    /// The expressions that the commit is to set, at most one for each
    /// parameter.
    pub pending: Vec<Edit>,
    /// The errors of the edits that were refused, oldest first.
    pub errors: Vec<Error>,
}

/// `after` is `before` with the edit for `key` replaced by `expr`, or with
/// that edit appended where there was none for `key`.
pub open spec fn upserted(before: Seq<Edit>, after: Seq<Edit>, key: ParamKey, expr: Expr) -> bool {
    if edited(before, key) {
        exists|i: int| 0 <= i < before.len() && (#[trigger] before[i]).0 == key && after == before.update(i, (key, expr))
    } else {
        after == before.push((key, expr))
    }
}

/// `after` is `before`, with `e` appended where an edit failed with `e`.
pub open spec fn logged<T>(before: Seq<Error>, after: Seq<Error>, res: Result<T, Error>) -> bool {
    match res {
        Ok(_) => after == before,
        Err(e) => after == before.push(e),
    }
}

impl<'a> Transaction<'a> {
    /// The invariant of a transaction: the network and the draft are well
    /// formed, and no parameter has two pending expressions.
    pub open spec fn wf(&self) -> bool {
        &&& self.network.wf()
        &&& self.draft.wf()
        &&& keys_distinct(self.pending@)
    }

    /// Notes the error of a refused edit.
    fn note<T>(&mut self, res: &Result<T, Error>)
        ensures
            *final(self).network == *old(self).network,
            *final(final(self).network) == *final(old(self).network),
            final(self).draft == old(self).draft,
            final(self).pending == old(self).pending,
            logged(old(self).errors@, final(self).errors@, *res),
    {
        match res {
            Ok(_) => {},
            Err(e) => {
                self.errors.push(e.clone());
            },
        }
    }

    /// Creates a node in the draft, as `Network::create` does. A failure is
    /// logged and will make the commit fail.
    pub fn create(&mut self, parent: GenericNodeId, name: &str) -> (res: Result<GenericNodeId, Error>)
        requires
            old(self).wf(),
        ensures
            final(self).wf(),
            *final(self).network == *old(self).network,
            *final(final(self).network) == *final(old(self).network),
            final(self).pending == old(self).pending,
            logged(old(self).errors@, final(self).errors@, res),
            res is Ok <==> old(self).draft.can_create(parent),
            res is Err ==> final(self).draft == old(self).draft && res == Err::<GenericNodeId, Error>(
                if old(self).draft.has_node(parent) {
                    Error::Other
                } else {
                    Error::IdNotFound
                },
            ),
            res is Ok ==> Network::created(old(self).draft, final(self).draft, parent, name@, res->Ok_0),
    {
        let res = self.draft.create(parent, name);
        self.note(&res);
        res
    }

    /// Deletes a node of the draft with all nodes below it, as
    /// `Network::delete` does. A failure is noted and will make the commit
    /// fail.
    pub fn delete(&mut self, id: GenericNodeId) -> (res: Result<(), Error>)
        requires
            old(self).wf(),
        ensures
            final(self).wf(),
            *final(self).network == *old(self).network,
            *final(final(self).network) == *final(old(self).network),
            final(self).pending == old(self).pending,
            logged(old(self).errors@, final(self).errors@, res),
            res == (if !old(self).draft.has_node(id) {
                Err::<(), Error>(Error::IdNotFound)
            } else if id == old(self).draft.root_id() {
                Err::<(), Error>(Error::Other)
            } else {
                Ok::<(), Error>(())
            }),
            res is Err ==> final(self).draft == old(self).draft,
            res is Ok ==> Network::deleted(old(self).draft, final(self).draft, id),
    {
        let res = self.draft.delete(id);
        self.note(&res);
        res
    }

    /// Gives a node of the draft a new parameter that holds a constant, as
    /// `Network::add_param` does. A failure is noted and will make the commit
    /// fail.
    pub fn add_param(&mut self, node: GenericNodeId, name: &str, value: Value) -> (res: Result<ParamId, Error>)
        requires
            old(self).wf(),
        ensures
            final(self).wf(),
            *final(self).network == *old(self).network,
            *final(final(self).network) == *final(old(self).network),
            final(self).pending == old(self).pending,
            logged(old(self).errors@, final(self).errors@, res),
            res == (if old(self).draft.has_node(node) {
                Ok::<ParamId, Error>(old(self).draft.nodes()[node.raw].params@.len() as usize)
            } else {
                Err::<ParamId, Error>(Error::IdNotFound)
            }),
            res is Err ==> final(self).draft == old(self).draft,
            res is Ok ==> {
                let p = final(self).draft.param((node.raw, res->Ok_0));
                &&& Network::param_added(old(self).draft, final(self).draft, node, p)
                &&& p.name@ == name@
                &&& p.expr.source() == Seq::<char>::empty()
                &&& p.cached == Ok::<Value, Error>(value)
                &&& !p.dirty
                &&& p.refs@ == Seq::<ParamKey>::empty()
                &&& p.info.ty@ == kind_name(value)
                &&& !p.info.show_connector
            },
    {
        let res = self.draft.add_param(node, name, value);
        self.note(&res);
        res
    }

    /// Asks for a parameter of the draft to get a new expression when the
    /// transaction commits. A later request for the same parameter takes the
    /// place of an earlier one.
    ///
    /// Fails with `IdNotFound` where the draft has no such parameter; the
    /// failure is logged and will make the commit fail. Whether the
    /// expression can be set is decided by the commit, for all pending
    /// expressions together.
    pub fn set_expression(&mut self, node: GenericNodeId, param: ParamId, expr: Expr) -> (res: Result<(), Error>)
        requires
            old(self).wf(),
        ensures
            final(self).wf(),
            *final(self).network == *old(self).network,
            *final(final(self).network) == *final(old(self).network),
            final(self).draft == old(self).draft,
            logged(old(self).errors@, final(self).errors@, res),
            res == (if old(self).draft.has_param((node.raw, param)) {
                Ok::<(), Error>(())
            } else {
                Err::<(), Error>(Error::IdNotFound)
            }),
            res is Err ==> final(self).pending == old(self).pending,
            res is Ok ==> upserted(old(self).pending@, final(self).pending@, (node.raw, param), expr),
    {
        let key: ParamKey = (node.raw, param);
        if !self.draft.contains_param(key) {
            let res: Result<(), Error> = Err(Error::IdNotFound);
            self.note(&res);
            return res;
        }
        let ghost before = self.pending@;
        let mut i: usize = 0;
        while i < self.pending.len()
            invariant
                i <= self.pending.len(),
                *self == *old(self),
                old(self).wf(),
                old(self).draft.has_param(key),
                before == self.pending@,
                key == (node.raw, param),
                forall|j: int| 0 <= j < i ==> (#[trigger] before[j]).0 != key,
            decreases self.pending.len() - i,
        {
            if self.pending[i].0.0 == key.0 && self.pending[i].0.1 == key.1 {
                self.pending[i] = (key, expr);
                proof {
                    assert(before[i as int].0 == key);
                    assert(self.pending@ == before.update(i as int, (key, expr)));
                    assert forall|a: int, b: int| 0 <= a < b < self.pending@.len() implies (#[trigger] self.pending@[a]).0
                        != (#[trigger] self.pending@[b]).0 by {
                        assert(before[a].0 != before[b].0);
                    }
                }
                return Ok(());
            }
            i += 1;
        }
        self.pending.push((key, expr));
        proof {
            assert forall|a: int, b: int| 0 <= a < b < self.pending@.len() implies (#[trigger] self.pending@[a]).0
                != (#[trigger] self.pending@[b]).0 by {
                if b < before.len() {
                    assert(before[a].0 != before[b].0);
                } else {
                    assert(before[a].0 != key);
                }
            }
        }
        Ok(())
    }

    /// Returns a handle on the root node of the draft.
    pub fn root_node(&mut self) -> (node: Node<'_>)
        ensures
            node.id == old(self).draft.root_id(),
            *node.network == old(self).draft,
            final(self).draft == *final(node.network),
            *final(self).network == *old(self).network,
            *final(final(self).network) == *final(old(self).network),
            final(self).pending == old(self).pending,
            final(self).errors == old(self).errors,
    {
        self.draft.root_node()
    }

    /// Finds the cycle that would make the commit fail with `CycleDetected`:
    /// a chain of parameters that ends where it begins, in which each would
    /// be read by the next once the pending expressions were set. The edits
    /// are tried on a copy of the draft; the transaction stays as it is.
    pub fn offending_path(&self) -> (res: Option<Vec<ParamKey>>)
        requires
            self.wf(),
        ensures
            res is Some <==> self.draft.check_edits(self.pending@) == Err::<(), Error>(Error::CycleDetected),
            res matches Some(cycle) ==> closed_walk(self.draft.commit_edges(self.pending@), cycle@),
    {
        let mut copy = self.draft.duplicate();
        let mut trail: Vec<ParamKey> = Vec::new();
        proof {
            lemma_copy_checks(self.draft, copy, self.pending@);
        }
        match copy.apply_edits(&self.pending, &mut trail) {
            Err(Error::CycleDetected) => Some(trail),
            _ => None,
        }
    }

    /// What a successful commit leaves behind, `after`: the draft with the
    /// pending expressions applied to it, and with the payloads that the
    /// network had before for nodes that are still live, unless the draft
    /// holds a payload of its own for the node.
    pub open spec fn committed(before: Network, draft: Network, pending: Seq<Edit>, after: Network) -> bool {
        exists|mid: Network|
            {
                &&& #[trigger] Network::edits_applied(draft, mid, pending)
                &&& Network::same_but_payloads(mid, after)
                &&& after.payloads() == Network::merged(
                    draft.payloads(),
                    before.payloads(),
                    draft.nodes().dom(),
                )
            }
    }

    /// Ends the transaction: where no edit was refused and the pending
    /// expressions can be set together, the draft with these expressions
    /// takes the place of the network. Otherwise the network stays as it
    /// was when the transaction began.
    ///
    /// Fails with the first error that was noted, if there is one, and else
    /// as `Network::check_edits` says of the pending expressions: with
    /// `CycleDetected` exactly where the dependency edges would form a
    /// cycle, and then the refusal shows such a cycle.
    pub fn commit(self) -> (res: Result<(), Refused>)
        requires
            self.network.wf(),
            self.draft.wf(),
            keys_distinct(self.pending@),
        ensures
            res is Ok <==> self.errors@.len() == 0 && self.draft.check_edits(self.pending@) is Ok,
            res matches Err(r) ==> (if self.errors@.len() > 0 {
                r.error == self.errors@[0] && r.path@.len() == 0
            } else {
                r.shows(
                    self.draft.check_edits(self.pending@)->Err_0,
                    self.draft.commit_edges(self.pending@),
                )
            }),
            final(self.network).wf(),
            acyclic(final(self.network).edges()),
            res is Err ==> *final(self.network) == *old(self.network),
            res is Ok ==> Self::committed(
                *old(self.network),
                self.draft,
                self.pending@,
                *final(self.network),
            ),
    {
        let Transaction { network, draft, pending, errors } = self;
        let mut draft = draft;
        if errors.len() > 0 {
            return Err(Refused::plain(errors[0].clone()));
        }
        let ghost before = *network;
        let ghost start = draft;
        let mut trail: Vec<ParamKey> = Vec::new();
        match draft.apply_edits(&pending, &mut trail) {
            Ok(()) => {
                let ghost mid = draft;
                draft.adopt_payloads(network);
                *network = draft;
                proof {
                    assert(Network::edits_applied(start, mid, pending@));
                    assert(mid.nodes().dom() =~= start.nodes().dom());
                }
                Ok(())
            },
            Err(Error::CycleDetected) => Err(Refused { error: Error::CycleDetected, path: trail }),
            Err(e) => Err(Refused::plain(e)),
        }
    }
}

impl Network {
    /// Begins a transaction. The network cannot be used until the
    /// transaction has come to its end.
    pub fn transaction(&mut self) -> (tx: Transaction<'_>)
        requires
            old(self).wf(),
        ensures
            tx.wf(),
            *tx.network == *old(self),
            Network::same_net(*old(self), tx.draft),
            tx.pending@ == Seq::<Edit>::empty(),
            tx.errors@ == Seq::<Error>::empty(),
            *final(self) == *final(tx.network),
    {
        let draft = self.duplicate();
        Transaction { network: self, draft, pending: Vec::new(), errors: Vec::new() }
    }
}

} // verus!
