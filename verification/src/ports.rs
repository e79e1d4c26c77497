use vstd::prelude::*;
use crate::depgraph::ParamKey;
use crate::error::Error;
use crate::expr::Value;
use crate::network::{advanced, GenericNodeId, Network};
use crate::server::{NodeCreateInfo, NodeOutputInfo, NodeParamInfo};

verus! {

/// `v` is the value that a parameter of the type `ty` starts with: the empty
/// text for the type `string`, and the number zero for every other type.
pub open spec fn is_default(ty: Seq<char>, v: Value) -> bool {
    match v {
        Value::Number(bits) => ty != "string"@ && bits == 0,
        Value::String(text) => ty == "string"@ && text@ == Seq::<char>::empty(),
    }
}

/// Returns the value that a parameter of the type `ty` starts with.
pub fn default_value(ty: &String) -> (v: Value)
    ensures
        is_default(ty@, v),
{
    if *ty == String::from_str("string") {
        Value::String(String::new())
    } else {
        Value::Number(0)
    }
}

/// Copies a list of outputs.
pub fn copy_outputs(list: &Vec<(String, NodeOutputInfo)>) -> (res: Vec<(String, NodeOutputInfo)>)
    ensures
        res@ == list@,
{
    let mut res: Vec<(String, NodeOutputInfo)> = Vec::new();
    let mut i: usize = 0;
    while i < list.len()
        invariant
            i <= list.len(),
            res@ == list@.subrange(0, i as int),
        decreases list.len() - i,
    {
        res.push((list[i].0.clone(), list[i].1.clone()));
        assert(res@ == list@.subrange(0, i + 1));
        i += 1;
    }
    assert(list@.subrange(0, list.len() as int) == list@);
    res
}

impl Network {
    /// The node `id` of the network is what a description asks for, as far
    /// as its first `n` parameters go: it has the name of the description
    /// and these parameters, each with the name and the description given
    /// for it, clean, without expression, and with the value that its type
    /// starts with.
    pub open spec fn matches_description(self, id: GenericNodeId, info: NodeCreateInfo, n: int) -> bool {
        let rec = self.nodes()[id.raw];
        &&& rec.name@ == info.name@
        &&& rec.children@.len() == 0
        &&& rec.params@.len() == n
        &&& forall|i: int|
            0 <= i < n ==> {
                let p = #[trigger] rec.params@[i];
                &&& p.name@ == info.params@[i].0@
                &&& p.info == info.params@[i].1
                &&& p.cached is Ok
                &&& is_default(info.params@[i].1.ty@, p.cached->Ok_0)
                &&& !p.dirty
                &&& p.expr.source() == Seq::<char>::empty()
                &&& p.refs@ == Seq::<ParamKey>::empty()
            }
    }

    /// The first `n` parameters of the node `id` are the latest that the
    /// network has made, in their order; before them it had made `base`.
    pub open spec fn made_in_order(self, id: GenericNodeId, base: u64, n: int) -> bool {
        forall|i: int| 0 <= i < n ==> (#[trigger] self.nodes()[id.raw].params@[i]).serial == advanced(base, i as nat)
    }

    /// What `import` leaves behind where it succeeds with `id`: one more
    /// node below `parent`, which is what the description asks for, with one
    /// vertex in the dependency graph for each of its parameters; nothing
    /// else differs.
    pub open spec fn imported(
        old_net: Network,
        new_net: Network,
        parent: GenericNodeId,
        info: NodeCreateInfo,
        id: GenericNodeId,
    ) -> bool {
        let before = old_net.nodes();
        let after = new_net.nodes();
        &&& !before.dom().contains(id.raw)
        &&& !old_net.retired().contains(id.raw)
        &&& after.dom() =~= before.dom().insert(id.raw)
        &&& after[id.raw].parent == Some(parent)
        &&& new_net.matches_description(id, info, info.params@.len() as int)
        &&& new_net.made_in_order(id, old_net.params_made(), info.params@.len() as int)
        &&& after[id.raw].outputs@ == info.outputs@
        &&& after[parent.raw].children@ == before[parent.raw].children@.push(id)
        &&& after[parent.raw].name == before[parent.raw].name
        &&& after[parent.raw].parent == before[parent.raw].parent
        &&& after[parent.raw].params == before[parent.raw].params
        &&& after[parent.raw].outputs == before[parent.raw].outputs
        &&& forall|k: u64| #[trigger]
            before.dom().contains(k) && k != parent.raw ==> after[k] == before[k]
        &&& new_net.edges() == old_net.edges()
        &&& new_net.graph_keys() =~= old_net.graph_keys().union(
            Set::new(|k: ParamKey| k.0 == id.raw && k.1 < info.params@.len()),
        )
        &&& new_net.root_id() == old_net.root_id()
        &&& new_net.script_runs() == old_net.script_runs()
        &&& new_net.payloads() == old_net.payloads()
        &&& new_net.retired() == old_net.retired()
        &&& new_net.deletions() == old_net.deletions()
        &&& new_net.params_made() == advanced(old_net.params_made(), info.params@.len())
    }

    /// Creates a node below `parent` from a description: the node gets the
    /// name, the parameters and the outputs that the description lists. Each
    /// parameter starts with the value of its type, see `is_default`.
    ///
    /// Fails as `create` does, and with `Other` where a name occurs twice
    /// among the parameters or among the outputs of the description; nothing
    /// changes then.
    pub fn import(&mut self, parent: GenericNodeId, info: &NodeCreateInfo) -> (res: Result<GenericNodeId, Error>)
        requires
            old(self).wf(),
        ensures
            final(self).wf(),
            res is Ok <==> old(self).can_create(parent) && info.wf(),
            res is Err ==> *final(self) == *old(self) && res == Err::<GenericNodeId, Error>(
                if old(self).has_node(parent) {
                    Error::Other
                } else {
                    Error::IdNotFound
                },
            ),
            res is Ok ==> Self::imported(*old(self), *final(self), parent, *info, res->Ok_0),
    {
        if !self.contains(parent) {
            return Err(Error::IdNotFound);
        }
        if !info.is_valid() {
            return Err(Error::Other);
        }
        let id = match self.create(parent, info.name.as_str()) {
            Ok(id) => id,
            Err(e) => {
                return Err(e);
            },
        };
        let ghost made = *self;
        let mut i: usize = 0;
        while i < info.params.len()
            invariant
                i <= info.params.len(),
                self.wf(),
                made.wf(),
                made.has_node(id),
                self.has_node(id),
                self.matches_description(id, *info, i as int),
                self.made_in_order(id, made.params_made(), i as int),
                made.nodes()[id.raw].name@ == info.name@,
                made.nodes()[id.raw].children@.len() == 0,
                made.nodes()[id.raw].params@.len() == 0,
                self.nodes().dom() =~= made.nodes().dom(),
                forall|k: u64|
                    #[trigger] made.nodes().dom().contains(k) && k != id.raw ==> self.nodes()[k]
                    == made.nodes()[k],
                self.nodes()[id.raw].parent == made.nodes()[id.raw].parent,
                self.nodes()[id.raw].outputs == made.nodes()[id.raw].outputs,
                self.edges() == made.edges(),
                self.graph_keys() =~= made.graph_keys().union(
                    Set::new(|k: ParamKey| k.0 == id.raw && k.1 < i),
                ),
                self.root_id() == made.root_id(),
                self.script_runs() == made.script_runs(),
                self.payloads() == made.payloads(),
                self.retired() == made.retired(),
                self.deletions() == made.deletions(),
                self.params_made() == advanced(made.params_made(), i as nat),
            decreases info.params.len() - i,
        {
            let ghost prev = *self;
            let entry = &info.params[i];
            let value = default_value(&entry.1.ty);
            let res = self.add_described_param(id, entry.0.as_str(), value, entry.1.clone());
            proof {
                assert(res == Ok::<usize, Error>(i));
                let rec = self.nodes()[id.raw];
                assert forall|j: int| 0 <= j < i + 1 implies {
                    let p = #[trigger] rec.params@[j];
                    &&& p.name@ == info.params@[j].0@
                    &&& p.info == info.params@[j].1
                    &&& p.cached is Ok
                    &&& is_default(info.params@[j].1.ty@, p.cached->Ok_0)
                    &&& !p.dirty
                    &&& p.expr.source() == Seq::<char>::empty()
                    &&& p.refs@ == Seq::<ParamKey>::empty()
                } by {
                    if j < i {
                        assert(rec.params@[j] == prev.nodes()[id.raw].params@[j]);
                    }
                }
                assert forall|k: u64| #[trigger] made.nodes().dom().contains(k) && k != id.raw implies self.nodes()[k]
                    == made.nodes()[k] by {
                    assert(prev.nodes().dom().contains(k));
                }
            }
            i += 1;
        }
        let ghost filled = *self;
        let res = self.set_outputs(id, copy_outputs(&info.outputs));
        proof {
            assert(res is Ok);
            assert forall|k: u64| #[trigger] old(self).nodes().dom().contains(k) && k != parent.raw implies self.nodes()[k]
                == old(self).nodes()[k] by {
                assert(made.nodes().dom().contains(k));
                assert(filled.nodes().dom().contains(k));
            }
            assert(filled.nodes().dom().contains(parent.raw));
            assert(made.nodes().dom().contains(parent.raw));
        }
        Ok(id)
    }

    /// Lists the parameters of a node for clients: the name and the type of
    /// each, in the order of creation. Fails with `IdNotFound` where `id`
    /// names no live node.
    pub fn get_inputs(&self, id: GenericNodeId) -> (res: Result<Vec<(String, NodeParamInfo)>, Error>)
        requires
            self.sound(),
        ensures
            res is Ok <==> self.has_node(id),
            res matches Err(e) ==> e == Error::IdNotFound,
            res matches Ok(list) ==> {
                &&& list@.len() == self.nodes()[id.raw].params@.len()
                &&& forall|i: int|
                    0 <= i < list@.len() ==> {
                        &&& (#[trigger] list@[i]).0@ == self.nodes()[id.raw].params@[i].name@
                        &&& list@[i].1 == self.nodes()[id.raw].params@[i].info
                    }
            },
    {
        let rec = match self.node(id) {
            Ok(rec) => rec,
            Err(e) => {
                return Err(e);
            },
        };
        let mut list: Vec<(String, NodeParamInfo)> = Vec::new();
        let mut i: usize = 0;
        while i < rec.params.len()
            invariant
                i <= rec.params.len(),
                *rec == self.nodes()[id.raw],
                list@.len() == i,
                forall|j: int|
                    0 <= j < i ==> {
                        &&& (#[trigger] list@[j]).0@ == rec.params@[j].name@
                        &&& list@[j].1 == rec.params@[j].info
                    },
            decreases rec.params.len() - i,
        {
            list.push((rec.params[i].name.clone(), rec.params[i].info.clone()));
            i += 1;
        }
        Ok(list)
    }

    /// Lists the outputs of a node for clients: the name and the type of
    /// each, in the order in which they were declared. Fails with
    /// `IdNotFound` where `id` names no live node.
    pub fn get_outputs(&self, id: GenericNodeId) -> (res: Result<Vec<(String, NodeOutputInfo)>, Error>)
        requires
            self.sound(),
        ensures
            res is Ok <==> self.has_node(id),
            res matches Err(e) ==> e == Error::IdNotFound,
            res matches Ok(list) ==> list@ == self.nodes()[id.raw].outputs@,
    {
        match self.node(id) {
            Ok(rec) => Ok(copy_outputs(&rec.outputs)),
            Err(e) => Err(e),
        }
    }
}

} // verus!
