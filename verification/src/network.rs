pub mod node;

use std::marker::PhantomData;
use vstd::prelude::*;
use crate::arena::{
    arena_clone, arena_entries, arena_get, arena_get_mut, arena_insert, arena_keys, arena_len,
    arena_new, arena_retired, is_key, same_entries, NodeArena, MAX_RETIRED,
};
use crate::closure::{
    backward_closure, forward_closure, forward_paths, oriented, position_of, trace,
};
use crate::depgraph::{
    graph_add_edge, graph_add_node, graph_clone, graph_edges, graph_new, graph_nodes,
    graph_predecessors, graph_remove_edge, Depgraph, Edge, ParamKey,
};
use crate::error::Error;
use crate::expr::Value;
use crate::param::{same_param, Param, ParamId};
use crate::payload::{
    pack, payload_entries, slot_of, slots_distinct, storable, store_get, store_new, store_put,
    store_take, unpack, Payload, PayloadStore,
};
use crate::prune::{
    cut_subtree, detach, doomed_keys, drop_payloads, drop_vertices, gone_keys, is_doomed,
    is_under, lemma_list_len, lemma_pruned_tree, lemma_under_depth, pruned, subtree, taint,
};
use crate::reach::{
    acyclic, edges_within, is_walk, lemma_acyclic_mono, lemma_empty_acyclic,
    lemma_link_keeps_acyclic, lemma_reach_within, lemma_reaches_mono, lemma_reaches_step,
    lemma_stranger_stays, linked, reaches, reaches_from,
};
use crate::server::{NodeOutputInfo, NodeParamInfo};

verus! {

/// Identifies a node of any kind: the slot that the node is stored in, and
/// the generation of the slot. A stale identifier, one whose node was
/// deleted, names nothing: a node that is created later in the same slot
/// belongs to a later generation.
#[derive(Copy, Clone, Debug, PartialEq, Eq, Hash, PartialOrd, Ord, Structural)]
pub struct GenericNodeId {
    pub raw: u64,
}

/// A node identifier that remembers the type of the payload attached to the
/// node.
#[derive(Debug, Eq, PartialEq, Ord, PartialOrd, Hash)]
pub struct NodeId<T>(pub GenericNodeId, pub PhantomData<T>);

impl<T> Clone for NodeId<T> {
    fn clone(&self) -> (res: Self)
        ensures
            res.0 == self.0,
    {
        NodeId(self.0, PhantomData)
    }
}

impl<T> Copy for NodeId<T> {

}

impl<T> From<NodeId<T>> for GenericNodeId {
    fn from(id: NodeId<T>) -> (res: Self) {
        id.0
    }
}

impl<T> vstd::std_specs::convert::FromSpecImpl<NodeId<T>> for GenericNodeId {
    open spec fn obeys_from_spec() -> bool {
        true
    }

    open spec fn from_spec(id: NodeId<T>) -> GenericNodeId {
        id.0
    }
}

impl<T> NodeId<T> {
    /// Forgets the payload type.
    pub fn generic(&self) -> (id: GenericNodeId)
        ensures
            id == self.0,
    {
        self.0
    }
}

/// What the network records of one node: its place in the hierarchy and its
/// parameters.
pub struct NodeHierarchy {
    /// Name of the node. A node with an empty name cannot be reached by path,
    /// only by identifier.
    pub name: String,
    /// Parent node, `None` for the root.
    pub parent: Option<GenericNodeId>,
    /// Child nodes, in creation order.
    pub children: Vec<GenericNodeId>,
    /// Parameters, in creation order.
    pub params: Vec<Param>,
    /// Outputs, each with its name, in the order in which they were
    /// declared.
    pub outputs: Vec<(String, NodeOutputInfo)>,
    /// Distance from the root.
    pub depth: Ghost<nat>,
}

/// Two node records hold the same data.
pub open spec fn same_record(a: NodeHierarchy, b: NodeHierarchy) -> bool {
    &&& a.name@ == b.name@
    &&& a.parent == b.parent
    &&& a.children@ == b.children@
    &&& a.depth@ == b.depth@
    &&& a.outputs@ == b.outputs@
    &&& a.params@.len() == b.params@.len()
    &&& forall|i: int| 0 <= i < a.params@.len() ==> same_param(#[trigger] a.params@[i], b.params@[i])
}

impl Clone for NodeHierarchy {
    fn clone(&self) -> (res: Self)
        ensures
            same_record(*self, res),
    {
        let mut children: Vec<GenericNodeId> = Vec::new();
        let mut i: usize = 0;
        while i < self.children.len()
            invariant
                i <= self.children.len(),
                children@ == self.children@.subrange(0, i as int),
            decreases self.children.len() - i,
        {
            children.push(self.children[i]);
            assert(children@ == self.children@.subrange(0, i + 1));
            i += 1;
        }
        assert(self.children@.subrange(0, self.children.len() as int) == self.children@);
        let mut params: Vec<Param> = Vec::new();
        let mut j: usize = 0;
        while j < self.params.len()
            invariant
                j <= self.params.len(),
                params@.len() == j,
                forall|m: int| 0 <= m < j ==> same_param(#[trigger] self.params@[m], params@[m]),
            decreases self.params.len() - j,
        {
            params.push(self.params[j].clone());
            j += 1;
        }
        let mut outputs: Vec<(String, NodeOutputInfo)> = Vec::new();
        let mut m: usize = 0;
        while m < self.outputs.len()
            invariant
                m <= self.outputs.len(),
                outputs@ == self.outputs@.subrange(0, m as int),
            decreases self.outputs.len() - m,
        {
            outputs.push((self.outputs[m].0.clone(), self.outputs[m].1.clone()));
            assert(outputs@ == self.outputs@.subrange(0, m + 1));
            m += 1;
        }
        assert(self.outputs@.subrange(0, self.outputs.len() as int) == self.outputs@);
        NodeHierarchy {
            name: self.name.clone(),
            parent: self.parent,
            children,
            params,
            outputs,
            depth: Ghost(self.depth@),
        }
    }
}

impl NodeHierarchy {
    /// Creates a root node (no parent).
    pub fn new_root() -> (n: NodeHierarchy)
        ensures
            n.name@ == Seq::<char>::empty(),
            n.parent is None,
            n.children@ == Seq::<GenericNodeId>::empty(),
            n.params@ == Seq::<Param>::empty(),
            n.outputs@.len() == 0,
            n.depth@ == 0,
    {
        NodeHierarchy {
            name: String::new(),
            parent: None,
            children: Vec::new(),
            params: Vec::new(),
            outputs: Vec::new(),
            depth: Ghost(0),
        }
    }

    /// Creates a childless node below `parent`. The record does not know yet
    /// how far from the root it lies.
    pub fn with_parent(name: &str, parent: GenericNodeId) -> (n: NodeHierarchy)
        ensures
            n.name@ == name@,
            n.parent == Some(parent),
            n.children@ == Seq::<GenericNodeId>::empty(),
            n.params@ == Seq::<Param>::empty(),
            n.outputs@.len() == 0,
    {
        NodeHierarchy {
            name: String::from_str(name),
            parent: Some(parent),
            children: Vec::new(),
            params: Vec::new(),
            outputs: Vec::new(),
            depth: Ghost(0),
        }
    }

    /// Returns whether the node contains a subnetwork.
    pub fn has_subnet(&self) -> (b: bool)
        ensures
            b == (self.children@.len() > 0),
    {
        !self.children.is_empty()
    }

    /// Returns the parent node.
    pub fn parent(&self) -> (p: Option<GenericNodeId>)
        ensures
            p == self.parent,
    {
        self.parent
    }

    /// Returns whether the node is a root node.
    pub fn is_root(&self) -> (b: bool)
        ensures
            b == (self.parent is None),
    {
        self.parent.is_none()
    }

    /// Returns the name of the node.
    pub fn name(&self) -> (s: &str)
        ensures
            s@ == self.name@,
    {
        self.name.as_str()
    }
}

/// What a look into the payload store gives for the type `T`: nothing
/// (`None`), a payload of another type (`Some(None)`), or the payload.
pub open spec fn typed_spec<T>(found: Option<Option<&T>>) -> Result<&T, Error> {
    match found {
        None => Err(Error::IdNotFound),
        Some(None) => Err(Error::TypeError),
        Some(Some(v)) => Ok(v),
    }
}

/// Turns what a look into the payload store gave into a result: no payload
/// is `IdNotFound`, a payload of another type is `TypeError`.
pub fn typed<T>(found: Option<Option<&T>>) -> (res: Result<&T, Error>)
    ensures
        res == typed_spec(found),
{
    match found {
        None => Err(Error::IdNotFound),
        Some(None) => Err(Error::TypeError),
        Some(Some(v)) => Ok(v),
    }
}

/// The count `n` after `by` more parameters were made: it stops at
/// `u64::MAX`.
pub open spec fn advanced(n: u64, by: nat) -> u64 {
    if n + by <= u64::MAX {
        (n + by) as u64
    } else {
        u64::MAX
    }
}

/// The name under which a value of this kind is described to clients.
pub open spec fn kind_name(v: Value) -> Seq<char> {
    match v {
        Value::Number(_) => "number"@,
        Value::String(_) => "string"@,
    }
}

/// The most nodes that a network holds at a time.
pub const MAX_NODES: usize = 0xffff_0000;

/// The node records form a tree below `root`: every other node hangs in the
/// child list of exactly one live parent, one level further from the root.
pub open spec fn tree_ok(nodes: Map<u64, NodeHierarchy>, root: u64) -> bool {
    &&& nodes.dom().finite()
    &&& nodes.dom().contains(root)
    &&& nodes[root].parent is None
    &&& forall|k: u64| #[trigger] nodes.dom().contains(k) ==> is_key(k)
    &&& forall|k: u64| #[trigger]
        nodes.dom().contains(k) && k != root ==> {
            &&& nodes[k].parent is Some
            &&& nodes.dom().contains(nodes[k].parent->0.raw)
            &&& nodes[nodes[k].parent->0.raw].children@.contains(GenericNodeId { raw: k })
            &&& nodes[k].depth@ == nodes[nodes[k].parent->0.raw].depth@ + 1
        }
    &&& forall|k: u64, i: int|
        nodes.dom().contains(k) && 0 <= i < nodes[k].children@.len() ==> {
            let c = #[trigger] nodes[k].children@[i];
            &&& nodes.dom().contains(c.raw)
            &&& c.raw != root
            &&& nodes[c.raw].parent == Some(GenericNodeId { raw: k })
        }
    &&& forall|k: u64| #[trigger] nodes.dom().contains(k) ==> nodes[k].children@.no_duplicates()
}

/// The keys of all parameters of all nodes.
pub open spec fn param_keys(nodes: Map<u64, NodeHierarchy>) -> Set<ParamKey> {
    Set::new(|k: ParamKey| nodes.dom().contains(k.0) && k.1 < nodes[k.0].params@.len())
}

/// A hierarchy of nodes whose parameters are computed by expressions, with
/// the graph of dependencies between the parameters.
pub struct Network {
    pub(crate) hierarchy: NodeArena,
    pub(crate) root: GenericNodeId,
    pub(crate) depgraph: Depgraph,
    pub(crate) runs: u64,
    pub(crate) data: PayloadStore,
    pub(crate) gone: u64,
    pub(crate) made: u64,
}

impl Network {
    /// The node records, by raw key.
    pub closed spec fn nodes(&self) -> Map<u64, NodeHierarchy> {
        arena_entries(self.hierarchy)
    }

    /// The dependency edges: the first parameter of a pair is read by the
    /// second.
    pub closed spec fn edges(&self) -> Set<Edge> {
        graph_edges(self.depgraph)
    }

    /// The parameters known to the dependency graph.
    pub closed spec fn graph_keys(&self) -> Set<ParamKey> {
        graph_nodes(self.depgraph)
    }

    /// The identifier of the root node.
    pub closed spec fn root_id(&self) -> GenericNodeId {
        self.root
    }

    /// How many times a script has been run for this network, up to
    /// `u64::MAX`.
    pub closed spec fn script_runs(&self) -> u64 {
        self.runs
    }

    /// What the network remembers of what it has made and deleted: the raw
    /// keys of the nodes that it has deleted, how many they were, and how
    /// many parameters it has made, both counted up to `u64::MAX`.
    pub closed spec fn history(&self) -> (Set<u64>, u64, u64) {
        (arena_retired(self.hierarchy), self.gone, self.made)
    }

    /// How many parameters were made, counted up to `u64::MAX`.
    pub open spec fn params_made(&self) -> u64 {
        self.history().2
    }

    /// The raw keys of the nodes that were deleted.
    pub open spec fn retired(&self) -> Set<u64> {
        self.history().0
    }

    /// How many nodes were deleted, counted up to `u64::MAX`.
    pub open spec fn deletions(&self) -> u64 {
        self.history().1
    }

    /// A node can be created below `parent`: `parent` is live, the network
    /// is not full, and it has deleted fewer than `MAX_RETIRED` nodes, so
    /// that no identifier can come round again.
    pub open spec fn can_create(&self, parent: GenericNodeId) -> bool {
        &&& self.has_node(parent)
        &&& self.nodes().dom().len() < MAX_NODES
        &&& self.deletions() < MAX_RETIRED
    }

    /// The payloads attached to nodes, by raw key.
    pub closed spec fn payloads(&self) -> Map<u64, Payload> {
        payload_entries(self.data)
    }

    /// The identifier names a live node.
    pub open spec fn has_node(&self, id: GenericNodeId) -> bool {
        self.nodes().dom().contains(id.raw)
    }

    /// The key names a parameter of a live node.
    pub open spec fn has_param(&self, k: ParamKey) -> bool {
        self.nodes().dom().contains(k.0) && k.1 < self.nodes()[k.0].params@.len()
    }

    /// The parameter under a key.
    pub open spec fn param(&self, k: ParamKey) -> Param {
        self.nodes()[k.0].params@[k.1 as int]
    }

    /// The structure of the network is sound: the nodes form a tree, each
    /// in a slot of its own; only live nodes have a payload; the deleted
    /// nodes are counted; the dependency graph has one vertex for each
    /// parameter, and its edges form no cycle.
    pub open spec fn sound(&self) -> bool {
        &&& tree_ok(self.nodes(), self.root_id().raw)
        &&& self.nodes().dom().len() <= MAX_NODES
        &&& slots_distinct(self.nodes().dom())
        &&& forall|k: u64| #[trigger] self.nodes().dom().contains(k) ==> storable(k)
        &&& self.payloads().dom().subset_of(self.nodes().dom())
        &&& self.retired().finite()
        &&& self.deletions() == u64::MAX || self.retired().len() <= self.deletions()
        &&& self.graph_keys().finite()
        &&& self.graph_keys() == param_keys(self.nodes())
        &&& edges_within(self.edges(), self.graph_keys())
        &&& acyclic(self.edges())
    }

    /// The cached results are settled: whatever reads a dirty parameter is
    /// dirty itself, so that a clean parameter depends on clean parameters
    /// only.
    pub open spec fn settled(&self) -> bool {
        forall|e: Edge| #[trigger] self.edges().contains(e) && self.param(e.0).dirty ==> self.param(e.1).dirty
    }

    /// The invariant of the network: its structure is sound and its cached
    /// results are settled.
    pub open spec fn wf(&self) -> bool {
        self.sound() && self.settled()
    }

    /// A network that has no more edges than a settled one, and in which
    /// exactly the same parameters are dirty, is settled.
    pub proof fn lemma_settled_kept(a: Network, b: Network)
        requires
            a.sound(),
            a.settled(),
            b.edges().subset_of(a.edges()),
            forall|q: ParamKey| #[trigger] a.has_param(q) ==> b.param(q).dirty == a.param(q).dirty,
        ensures
            b.settled(),
    {
        assert forall|e: Edge| #[trigger] b.edges().contains(e) && b.param(e.0).dirty implies b.param(e.1).dirty by {
            assert(a.edges().contains((e.0, e.1)));
            assert(a.graph_keys().contains(e.0) && a.graph_keys().contains(e.1));
            assert(a.has_param(e.0) && a.has_param(e.1));
        }
    }

    /// Creates a new node network, which holds the root node only.
    pub fn new() -> (net: Network)
        ensures
            net.wf(),
            net.nodes().dom() == set![net.root_id().raw],
            net.nodes()[net.root_id().raw].name@ == Seq::<char>::empty(),
            net.nodes()[net.root_id().raw].children@ == Seq::<GenericNodeId>::empty(),
            net.nodes()[net.root_id().raw].params@ == Seq::<Param>::empty(),
            net.edges() == Set::<Edge>::empty(),
            net.payloads() == Map::<u64, Payload>::empty(),
            net.retired() == Set::<u64>::empty(),
            net.deletions() == 0,
            net.params_made() == 0,
            net.script_runs() == 0,
    {
        let mut hierarchy = arena_new();
        assert(arena_entries(hierarchy).dom() == Set::<u64>::empty());
        let raw = arena_insert(&mut hierarchy, NodeHierarchy::new_root());
        let net = Network {
            hierarchy,
            root: GenericNodeId { raw },
            depgraph: graph_new(),
            runs: 0,
            data: store_new(),
            gone: 0,
            made: 0,
        };
        proof {
            lemma_empty_acyclic();
            assert(net.nodes().dom() =~= set![raw]);
            assert(net.graph_keys() =~= param_keys(net.nodes()));
        }
        net
    }

    /// Returns the identifier of the root node.
    pub fn root(&self) -> (id: GenericNodeId)
        ensures
            id == self.root_id(),
    {
        self.root
    }

    /// Returns how many times a script has been run for this network.
    pub fn runs(&self) -> (n: u64)
        ensures
            n == self.script_runs(),
    {
        self.runs
    }

    /// Tells whether the identifier names a live node.
    pub fn contains(&self, id: GenericNodeId) -> (found: bool)
        ensures
            found == (is_key(id.raw) && self.has_node(id)),
    {
        if id.raw & 0x1_0000_0000 == 0 {
            false
        } else {
            arena_get(&self.hierarchy, id.raw).is_some()
        }
    }

    /// Returns the record of a node.
    pub fn node(&self, id: GenericNodeId) -> (rec: Result<&NodeHierarchy, Error>)
        ensures
            rec == (if is_key(id.raw) && self.has_node(id) {
                Ok::<&NodeHierarchy, Error>(&self.nodes()[id.raw])
            } else {
                Err::<&NodeHierarchy, Error>(Error::IdNotFound)
            }),
    {
        if id.raw & 0x1_0000_0000 == 0 {
            return Err(Error::IdNotFound);
        }
        match arena_get(&self.hierarchy, id.raw) {
            Some(rec) => Ok(rec),
            None => Err(Error::IdNotFound),
        }
    }

    /// What `create` leaves behind where it succeeds with `id`: one more node,
    /// named `name`, without children or parameters, listed last among the
    /// children of `parent`; nothing else differs.
    pub open spec fn created(old_net: Network, new_net: Network, parent: GenericNodeId, name: Seq<char>, id: GenericNodeId) -> bool {
        let before = old_net.nodes();
        let after = new_net.nodes();
        &&& !before.dom().contains(id.raw)
        &&& !old_net.retired().contains(id.raw)
        &&& after.dom() == before.dom().insert(id.raw)
        &&& after[id.raw].name@ == name
        &&& after[id.raw].parent == Some(parent)
        &&& after[id.raw].children@ == Seq::<GenericNodeId>::empty()
        &&& after[id.raw].params@ == Seq::<Param>::empty()
        &&& after[id.raw].outputs@.len() == 0
        &&& after[parent.raw].children@ == before[parent.raw].children@.push(id)
        &&& after[parent.raw].outputs == before[parent.raw].outputs
        &&& after[parent.raw].name == before[parent.raw].name
        &&& after[parent.raw].parent == before[parent.raw].parent
        &&& after[parent.raw].params == before[parent.raw].params
        &&& forall|k: u64| #[trigger]
            before.dom().contains(k) && k != parent.raw ==> after[k] == before[k]
        &&& new_net.edges() == old_net.edges()
        &&& new_net.graph_keys() == old_net.graph_keys()
        &&& new_net.root_id() == old_net.root_id()
        &&& new_net.script_runs() == old_net.script_runs()
        &&& new_net.payloads() == old_net.payloads()
        &&& new_net.history() == old_net.history()
    }

    /// Creates a node named `name` below `parent`. Its identifier is that of
    /// no live node and of no node that was deleted before.
    ///
    /// Fails with `IdNotFound` where `parent` names no live node, and with
    /// `Other` where the network is full or has deleted `MAX_RETIRED` nodes;
    /// the network is then unchanged.
    pub fn create(&mut self, parent: GenericNodeId, name: &str) -> (res: Result<GenericNodeId, Error>)
        requires
            old(self).wf(),
        ensures
            final(self).wf(),
            res is Ok <==> old(self).can_create(parent),
            res is Err ==> res == Err::<GenericNodeId, Error>(
                if old(self).has_node(parent) {
                    Error::Other
                } else {
                    Error::IdNotFound
                },
            ),
            res is Err ==> *final(self) == *old(self),
            res is Ok ==> Self::created(*old(self), *final(self), parent, name@, res->Ok_0),
    {
        if !self.contains(parent) {
            return Err(Error::IdNotFound);
        }
        if arena_len(&self.hierarchy) >= MAX_NODES || self.gone >= MAX_RETIRED {
            return Err(Error::Other);
        }
        let ghost before = self.nodes();
        let ghost depth = before[parent.raw].depth@;
        let mut rec = NodeHierarchy::with_parent(name, parent);
        rec.depth = Ghost(depth + 1);
        let raw = arena_insert(&mut self.hierarchy, rec);
        let id = GenericNodeId { raw };
        let ghost middle = self.nodes();
        let up = arena_get_mut(&mut self.hierarchy, parent.raw);
        up.children.push(id);
        proof {
            let after = self.nodes();
            let root = self.root.raw;
            assert(after.dom() =~= before.dom().insert(raw));
            assert(after[parent.raw].children@ == before[parent.raw].children@.push(id));
            assert forall|k: u64| #[trigger] after.dom().contains(k) && k != root implies {
                &&& after[k].parent is Some
                &&& after.dom().contains(after[k].parent->0.raw)
                &&& after[after[k].parent->0.raw].children@.contains(GenericNodeId { raw: k })
                &&& after[k].depth@ == after[after[k].parent->0.raw].depth@ + 1
            } by {
                if k == raw {
                    assert(after[parent.raw].children@[before[parent.raw].children@.len() as int]
                        == id);
                } else {
                    let up_raw = before[k].parent->0.raw;
                    assert(before[up_raw].children@.contains(GenericNodeId { raw: k }));
                    let i = choose|i: int|
                        0 <= i < before[up_raw].children@.len() && before[up_raw].children@[i]
                            == (GenericNodeId { raw: k });
                    assert(after[up_raw].children@[i] == (GenericNodeId { raw: k }));
                }
            }
            assert forall|k: u64, i: int|
                after.dom().contains(k) && 0 <= i < after[k].children@.len() implies {
                let c = #[trigger] after[k].children@[i];
                &&& after.dom().contains(c.raw)
                &&& c.raw != root
                &&& after[c.raw].parent == Some(GenericNodeId { raw: k })
            } by {
                if k == parent.raw && i == before[parent.raw].children@.len() {
                } else if k != raw {
                    let c = before[k].children@[i];
                    assert(before.dom().contains(c.raw));
                }
            }
            assert forall|k: u64|
                #[trigger] after.dom().contains(k)
                implies after[k].children@.no_duplicates() by {
                if k == parent.raw {
                    let kids = before[parent.raw].children@;
                    assert forall|i: int| 0 <= i < kids.len() implies kids[i] != id by {
                        let c = kids[i];
                        assert(before.dom().contains(c.raw));
                    }
                } else if k != raw {
                    assert(before.dom().contains(k));
                }
            }
            assert(param_keys(after) =~= param_keys(before));
            assert forall|q: ParamKey| #[trigger] old(self).has_param(q) implies self.param(q) == old(self).param(q) by {
                if q.0 != parent.raw {
                    assert(before.dom().contains(q.0));
                }
            }
            Self::lemma_settled_kept(*old(self), *self);
        }
        Ok(id)
    }

    /// The two networks have the same nodes in the same places, each with as
    /// many parameters, and the same vertices in their dependency graphs.
    pub open spec fn same_shape(a: Network, b: Network) -> bool {
        &&& b.nodes().dom() =~= a.nodes().dom()
        &&& forall|k: u64| #[trigger]
            a.nodes().dom().contains(k) ==> {
                &&& b.nodes()[k].name == a.nodes()[k].name
                &&& b.nodes()[k].parent == a.nodes()[k].parent
                &&& b.nodes()[k].children == a.nodes()[k].children
                &&& b.nodes()[k].depth == a.nodes()[k].depth
                &&& b.nodes()[k].outputs == a.nodes()[k].outputs
                &&& b.nodes()[k].params@.len() == a.nodes()[k].params@.len()
            }
        &&& b.root_id() == a.root_id()
        &&& b.graph_keys() == a.graph_keys()
        &&& b.payloads() == a.payloads()
        &&& b.history() == a.history()
    }

    /// The two networks differ at most in the parameter under `key`, which is
    /// `p` in `new_net`.
    pub open spec fn param_replaced(old_net: Network, new_net: Network, key: ParamKey, p: Param) -> bool {
        let before = old_net.nodes();
        let after = new_net.nodes();
        &&& after.dom() =~= before.dom()
        &&& forall|k: u64| #[trigger] before.dom().contains(k) && k != key.0 ==> after[k] == before[k]
        &&& after[key.0].name == before[key.0].name
        &&& after[key.0].parent == before[key.0].parent
        &&& after[key.0].children == before[key.0].children
        &&& after[key.0].depth == before[key.0].depth
        &&& after[key.0].outputs == before[key.0].outputs
        &&& after[key.0].params@ == before[key.0].params@.update(key.1 as int, p)
        &&& new_net.edges() == old_net.edges()
        &&& new_net.graph_keys() == old_net.graph_keys()
        &&& new_net.root_id() == old_net.root_id()
        &&& new_net.script_runs() == old_net.script_runs()
        &&& new_net.payloads() == old_net.payloads()
        &&& new_net.history() == old_net.history()
    }

    /// Replacing a parameter keeps the invariant.
    pub proof fn lemma_param_replaced_wf(old_net: Network, new_net: Network, key: ParamKey, p: Param)
        requires
            old_net.sound(),
            old_net.has_param(key),
            Self::param_replaced(old_net, new_net, key, p),
        ensures
            new_net.sound(),
            new_net.has_param(key),
            new_net.param(key) == p,
            forall|k: ParamKey| new_net.has_param(k) == old_net.has_param(k),
            forall|k: ParamKey|
                old_net.has_param(k) && k != key ==> new_net.param(k) == old_net.param(k),
    {
        let before = old_net.nodes();
        let after = new_net.nodes();
        let root = old_net.root_id().raw;
        assert forall|k: u64| after.dom().contains(k) implies after[k].children@ == before[k].children@
            && after[k].parent == before[k].parent && after[k].depth@ == before[k].depth@
            && after[k].params@.len() == before[k].params@.len() by {}
        assert forall|k: u64| #[trigger] after.dom().contains(k) && k != root implies {
            &&& after[k].parent is Some
            &&& after.dom().contains(after[k].parent->0.raw)
            &&& after[after[k].parent->0.raw].children@.contains(GenericNodeId { raw: k })
            &&& after[k].depth@ == after[after[k].parent->0.raw].depth@ + 1
        } by {
            assert(before.dom().contains(k));
            let up = before[k].parent->0.raw;
            assert(before.dom().contains(up));
            assert(after.dom().contains(up));
        }
        assert forall|k: u64, i: int|
            after.dom().contains(k) && 0 <= i < after[k].children@.len() implies {
            let c = #[trigger] after[k].children@[i];
            &&& after.dom().contains(c.raw)
            &&& c.raw != root
            &&& after[c.raw].parent == Some(GenericNodeId { raw: k })
        } by {
            let c = before[k].children@[i];
            assert(before.dom().contains(c.raw));
            assert(after.dom().contains(c.raw));
        }
        assert(param_keys(after) =~= param_keys(before));
        assert forall|k: ParamKey| old_net.has_param(k) && k != key implies new_net.param(k)
            == old_net.param(k) by {
            if k.0 != key.0 {
                assert(before.dom().contains(k.0));
            }
        }
    }

    /// Gives exclusive access to one parameter. Whatever the caller leaves in
    /// it is what the network then holds; nothing else changes.
    pub(crate) fn param_mut(&mut self, key: ParamKey) -> (p: &mut Param)
        requires
            old(self).sound(),
            old(self).has_param(key),
        ensures
            *p == old(self).param(key),
            Self::param_replaced(*old(self), *final(self), key, *final(p)),
    {
        let rec = arena_get_mut(&mut self.hierarchy, key.0);
        &mut rec.params[key.1]
    }

    /// What `add_param` leaves behind: the node `node` has one more
    /// parameter, `p`, which is the latest in the order of creation; the
    /// dependency graph has one more vertex for it, and nothing else
    /// differs.
    pub open spec fn param_added(old_net: Network, new_net: Network, node: GenericNodeId, p: Param) -> bool {
        let before = old_net.nodes();
        let after = new_net.nodes();
        &&& after.dom() =~= before.dom()
        &&& forall|k: u64| #[trigger] before.dom().contains(k) && k != node.raw ==> after[k] == before[k]
        &&& after[node.raw].name == before[node.raw].name
        &&& after[node.raw].parent == before[node.raw].parent
        &&& after[node.raw].children == before[node.raw].children
        &&& after[node.raw].depth == before[node.raw].depth
        &&& after[node.raw].outputs == before[node.raw].outputs
        &&& after[node.raw].params@ == before[node.raw].params@.push(p)
        &&& new_net.edges() == old_net.edges()
        &&& new_net.graph_keys() == old_net.graph_keys().insert(
            (node.raw, before[node.raw].params@.len() as usize),
        )
        &&& new_net.root_id() == old_net.root_id()
        &&& new_net.script_runs() == old_net.script_runs()
        &&& new_net.payloads() == old_net.payloads()
        &&& new_net.retired() == old_net.retired()
        &&& new_net.deletions() == old_net.deletions()
        &&& new_net.params_made() == advanced(old_net.params_made(), 1)
        &&& p.serial == old_net.params_made()
    }

    /// Gives the node `node` a new parameter called `name` that holds the
    /// constant `value`, and returns its index. The parameter is clean,
    /// depends on nothing, shows no connector, and is described as being of
    /// the kind of `value`.
    ///
    /// Fails with `IdNotFound` where `node` names no live node; the network
    /// is then unchanged.
    pub fn add_param(&mut self, node: GenericNodeId, name: &str, value: Value) -> (res: Result<ParamId, Error>)
        requires
            old(self).wf(),
        ensures
            final(self).wf(),
            res == (if old(self).has_node(node) {
                Ok::<ParamId, Error>(old(self).nodes()[node.raw].params@.len() as usize)
            } else {
                Err::<ParamId, Error>(Error::IdNotFound)
            }),
            res is Err ==> *final(self) == *old(self),
            res is Ok ==> {
                let p = final(self).param((node.raw, res->Ok_0));
                &&& Self::param_added(*old(self), *final(self), node, p)
                &&& p.name@ == name@
                &&& p.expr.source() == Seq::<char>::empty()
                &&& p.cached == Ok::<Value, Error>(value)
                &&& !p.dirty
                &&& p.refs@ == Seq::<ParamKey>::empty()
                &&& p.info.ty@ == kind_name(value)
                &&& !p.info.show_connector
            },
    {
        let ty = match &value {
            Value::Number(_) => String::from_str("number"),
            Value::String(_) => String::from_str("string"),
        };
        self.add_described_param(node, name, value, NodeParamInfo { ty, show_connector: false })
    }

    /// Gives the node `node` a new parameter called `name` that holds the
    /// constant `value` and is described to clients by `info`, and returns
    /// its index. The parameter is clean and depends on nothing.
    ///
    /// Fails with `IdNotFound` where `node` names no live node; the network
    /// is then unchanged.
    pub fn add_described_param(
        &mut self,
        node: GenericNodeId,
        name: &str,
        value: Value,
        info: NodeParamInfo,
    ) -> (res: Result<ParamId, Error>)
        requires
            old(self).wf(),
        ensures
            final(self).wf(),
            res == (if old(self).has_node(node) {
                Ok::<ParamId, Error>(old(self).nodes()[node.raw].params@.len() as usize)
            } else {
                Err::<ParamId, Error>(Error::IdNotFound)
            }),
            res is Err ==> *final(self) == *old(self),
            res is Ok ==> {
                let p = final(self).param((node.raw, res->Ok_0));
                &&& Self::param_added(*old(self), *final(self), node, p)
                &&& p.name@ == name@
                &&& p.expr.source() == Seq::<char>::empty()
                &&& p.cached == Ok::<Value, Error>(value)
                &&& !p.dirty
                &&& p.refs@ == Seq::<ParamKey>::empty()
                &&& p.info == info
            },
    {
        if !self.contains(node) {
            return Err(Error::IdNotFound);
        }
        let ghost before = self.nodes();
        let ghost root = self.root.raw;
        let p = Param::with_constant(name, value, info, self.made);
        if self.made < u64::MAX {
            self.made = self.made + 1;
        }
        let rec = arena_get_mut(&mut self.hierarchy, node.raw);
        let index = rec.params.len();
        rec.params.push(p);
        graph_add_node(&mut self.depgraph, (node.raw, index));
        proof {
            let after = self.nodes();
            assert(after.dom() =~= before.dom());
            assert forall|k: u64| #[trigger] after.dom().contains(k) && k != root implies {
                &&& after[k].parent is Some
                &&& after.dom().contains(after[k].parent->0.raw)
                &&& after[after[k].parent->0.raw].children@.contains(GenericNodeId { raw: k })
                &&& after[k].depth@ == after[after[k].parent->0.raw].depth@ + 1
            } by {
                assert(before.dom().contains(k));
                let up = before[k].parent->0.raw;
                assert(before.dom().contains(up));
                assert(after[up].children@ == before[up].children@);
            }
            assert forall|k: u64, i: int|
                after.dom().contains(k) && 0 <= i < after[k].children@.len() implies {
                let c = #[trigger] after[k].children@[i];
                &&& after.dom().contains(c.raw)
                &&& c.raw != root
                &&& after[c.raw].parent == Some(GenericNodeId { raw: k })
            } by {
                assert(after[k].children@ == before[k].children@);
                let c = before[k].children@[i];
                assert(before.dom().contains(c.raw));
            }
            assert forall|k: u64|
                #[trigger] after.dom().contains(k)
                implies after[k].children@.no_duplicates() by {
                assert(after[k].children@ == before[k].children@);
            }
            assert(param_keys(after) =~= param_keys(before).insert((node.raw, index)));
            assert(edges_within(self.edges(), self.graph_keys()));
        }
        Ok(index)
    }

    /// The two networks differ at most in the outputs of the node `id`,
    /// which are `outputs` in `new_net`.
    pub open spec fn outputs_set(
        old_net: Network,
        new_net: Network,
        id: GenericNodeId,
        outputs: Seq<(String, NodeOutputInfo)>,
    ) -> bool {
        let before = old_net.nodes();
        let after = new_net.nodes();
        &&& after.dom() =~= before.dom()
        &&& forall|k: u64| #[trigger] before.dom().contains(k) && k != id.raw ==> after[k] == before[k]
        &&& after[id.raw].name == before[id.raw].name
        &&& after[id.raw].parent == before[id.raw].parent
        &&& after[id.raw].children == before[id.raw].children
        &&& after[id.raw].depth == before[id.raw].depth
        &&& after[id.raw].params == before[id.raw].params
        &&& after[id.raw].outputs@ == outputs
        &&& new_net.edges() == old_net.edges()
        &&& new_net.graph_keys() == old_net.graph_keys()
        &&& new_net.root_id() == old_net.root_id()
        &&& new_net.script_runs() == old_net.script_runs()
        &&& new_net.payloads() == old_net.payloads()
        &&& new_net.history() == old_net.history()
    }

    /// Declares the outputs of a node, in place of those that it may have.
    ///
    /// Fails with `IdNotFound`, and changes nothing, where `id` names no
    /// live node.
    pub fn set_outputs(&mut self, id: GenericNodeId, outputs: Vec<(String, NodeOutputInfo)>) -> (res: Result<(), Error>)
        requires
            old(self).wf(),
        ensures
            final(self).wf(),
            res == (if old(self).has_node(id) {
                Ok::<(), Error>(())
            } else {
                Err::<(), Error>(Error::IdNotFound)
            }),
            res is Err ==> *final(self) == *old(self),
            res is Ok ==> Self::outputs_set(*old(self), *final(self), id, outputs@),
    {
        if !self.contains(id) {
            return Err(Error::IdNotFound);
        }
        let ghost before = self.nodes();
        let ghost root = self.root.raw;
        let rec = arena_get_mut(&mut self.hierarchy, id.raw);
        rec.outputs = outputs;
        proof {
            let after = self.nodes();
            assert(after.dom() =~= before.dom());
            assert forall|k: u64| #[trigger] after.dom().contains(k) && k != root implies {
                &&& after[k].parent is Some
                &&& after.dom().contains(after[k].parent->0.raw)
                &&& after[after[k].parent->0.raw].children@.contains(GenericNodeId { raw: k })
                &&& after[k].depth@ == after[after[k].parent->0.raw].depth@ + 1
            } by {
                assert(before.dom().contains(k));
                let up = before[k].parent->0.raw;
                assert(before.dom().contains(up));
                assert(after[up].children@ == before[up].children@);
            }
            assert forall|k: u64, i: int|
                after.dom().contains(k) && 0 <= i < after[k].children@.len() implies {
                let c = #[trigger] after[k].children@[i];
                &&& after.dom().contains(c.raw)
                &&& c.raw != root
                &&& after[c.raw].parent == Some(GenericNodeId { raw: k })
            } by {
                assert(after[k].children@ == before[k].children@);
                let c = before[k].children@[i];
                assert(before.dom().contains(c.raw));
            }
            assert forall|k: u64|
                #[trigger] after.dom().contains(k)
                implies after[k].children@.no_duplicates() by {
                assert(after[k].children@ == before[k].children@);
            }
            assert(param_keys(after) =~= param_keys(before));
        }
        Ok(())
    }

    /// Returns the parameter under an identifier and an index.
    pub fn get_param(&self, node: GenericNodeId, param: ParamId) -> (res: Result<&Param, Error>)
        requires
            self.sound(),
        ensures
            res == (if self.has_param((node.raw, param)) {
                Ok::<&Param, Error>(&self.param((node.raw, param)))
            } else {
                Err::<&Param, Error>(Error::IdNotFound)
            }),
    {
        match self.node(node) {
            Ok(rec) => {
                if param < rec.params.len() {
                    Ok(&rec.params[param])
                } else {
                    Err(Error::IdNotFound)
                }
            },
            Err(_) => Err(Error::IdNotFound),
        }
    }

    /// Tells whether the key names a parameter of a live node.
    pub fn contains_param(&self, key: ParamKey) -> (found: bool)
        requires
            self.sound(),
        ensures
            found == self.has_param(key),
    {
        self.get_param(GenericNodeId { raw: key.0 }, key.1).is_ok()
    }

    /// Lists every parameter that depends on one of `starts`, directly or
    /// through other parameters, the starts included; each is listed once.
    pub fn dependents(&self, starts: &Vec<ParamKey>) -> (out: Vec<ParamKey>)
        requires
            self.sound(),
        ensures
            out@.no_duplicates(),
            forall|x: ParamKey| out@.contains(x) <==> reaches_from(self.edges(), starts@, x),
            forall|i: int| 0 <= i < out.len() ==> self.has_param(#[trigger] out[i]) || starts@.contains(out[i]),
    {
        let out = forward_closure(&self.depgraph, starts);
        proof {
            assert forall|i: int|
                0 <= i < out.len()
                implies self.has_param(#[trigger] out[i]) || starts@.contains(out[i]) by {
                assert(out@.contains(out[i]));
                let w = choose|w: int|
                    0 <= w < starts.len() && #[trigger] reaches(self.edges(), starts@[w], out[i]);
                if self.graph_keys().contains(starts[w]) {
                    lemma_reach_within(self.edges(), self.graph_keys(), starts@[w], out[i]);
                } else {
                    lemma_stranger_stays(self.edges(), self.graph_keys(), starts@[w], out[i]);
                }
            }
        }
        out
    }

    /// The edges of `e` that do not end at `key`, together with one edge
    /// into `key` from each of `refs`.
    pub open spec fn relinked(e: Set<Edge>, key: ParamKey, refs: Seq<ParamKey>) -> Set<Edge> {
        Set::new(|x: Edge| (e.contains(x) && x.1 != key) || (x.1 == key && refs.contains(x.0)))
    }

    /// Replaces the dependencies of the parameter `key`: every edge into it
    /// is dropped, and one edge from each of `refs` is put in its place.
    /// Nothing but the edges changes.
    pub(crate) fn relink(&mut self, key: ParamKey, refs: &Vec<ParamKey>)
        requires
            old(self).sound(),
            old(self).has_param(key),
            forall|i: int| 0 <= i < refs.len() ==> old(self).has_param(#[trigger] refs[i]),
            forall|i: int|
                0 <= i < refs.len() ==> !reaches(old(self).edges(), key, #[trigger] refs[i]),
        ensures
            final(self).sound(),
            final(self).edges() == Self::relinked(old(self).edges(), key, refs@),
            final(self).nodes() == old(self).nodes(),
            final(self).graph_keys() == old(self).graph_keys(),
            final(self).root_id() == old(self).root_id(),
            final(self).script_runs() == old(self).script_runs(),
            final(self).payloads() == old(self).payloads(),
            final(self).history() == old(self).history(),
    {
        let ghost e0 = self.edges();
        let ghost keys = self.graph_keys();
        let preds = graph_predecessors(&self.depgraph, key);
        let mut i: usize = 0;
        while i < preds.len()
            invariant
                i <= preds.len(),
                self.nodes() == old(self).nodes(),
                self.graph_keys() == keys,
                self.root_id() == old(self).root_id(),
                self.script_runs() == old(self).script_runs(),
                self.payloads() == old(self).payloads(),
                self.history() == old(self).history(),
                forall|x: ParamKey| preds@.contains(x) <==> e0.contains((x, key)),
                self.edges() =~= Set::new(
                    |x: Edge|
                        e0.contains(x) && !(x.1 == key && exists|j: int|
                            0 <= j < i && preds@[j] == x.0),
                ),
            decreases preds.len() - i,
        {
            let ghost cur = self.edges();
            graph_remove_edge(&mut self.depgraph, preds[i], key);
            assert(self.edges() =~= Set::new(
                |x: Edge|
                    e0.contains(x) && !(x.1 == key && exists|j: int|
                        0 <= j < i + 1 && preds@[j] == x.0),
            )) by {
                assert forall|x: Edge|
                    cur.remove((preds@[i as int], key)).contains(x) == (e0.contains(x) && !(x.1 == key && exists|j: int| 0 <= j < i + 1 && preds@[j] == x.0)) by {
                    if x.1 == key && x.0 == preds@[i as int] {
                        assert(x == (preds@[i as int], key));
                    }
                }
            }
            i += 1;
        }
        let ghost e1 = self.edges();
        proof {
            assert(e1 =~= e0.filter(|x: Edge| x.1 != key)) by {
                assert forall|x: Edge| e0.contains(x) && x.1 == key implies exists|j: int|
                    0 <= j < preds@.len() && preds@[j] == x.0 by {
                    assert(x == (x.0, key));
                    assert(preds@.contains(x.0));
                }
            }
            assert(e1.subset_of(e0));
            lemma_acyclic_mono(e1, e0);
        }
        let mut j: usize = 0;
        while j < refs.len()
            invariant
                j <= refs.len(),
                self.nodes() == old(self).nodes(),
                self.graph_keys() == keys,
                keys == param_keys(self.nodes()),
                self.root_id() == old(self).root_id(),
                self.script_runs() == old(self).script_runs(),
                self.payloads() == old(self).payloads(),
                self.history() == old(self).history(),
                old(self).has_param(key),
                forall|m: int| 0 <= m < refs.len() ==> old(self).has_param(#[trigger] refs[m]),
                self.edges() =~= Self::relinked(e0, key, refs@.subrange(0, j as int)),
            decreases refs.len() - j,
        {
            let ghost cur = self.edges();
            let r = refs[j];
            assert(old(self).has_param(r));
            graph_add_edge(&mut self.depgraph, r, key);
            assert(self.graph_keys() =~= keys);
            assert(self.edges() =~= Self::relinked(e0, key, refs@.subrange(0, j + 1))) by {
                let a = refs@.subrange(0, j as int);
                let b = refs@.subrange(0, j + 1);
                assert(b == a.push(r));
                assert forall|x: Edge|
                    cur.insert((r, key)).contains(x) == Self::relinked(e0, key, b).contains(x) by {
                    if x.1 == key && b.contains(x.0) {
                        let m = choose|m: int| 0 <= m < b.len() && b[m] == x.0;
                        if m < j {
                            assert(a[m] == x.0);
                        } else {
                            assert(x == (r, key));
                        }
                    }
                    if x.1 == key && a.contains(x.0) {
                        let m = choose|m: int| 0 <= m < a.len() && a[m] == x.0;
                        assert(b[m] == x.0);
                    }
                    if x == (r, key) {
                        assert(b[j as int] == r);
                    }
                }
            }
            j += 1;
        }
        proof {
            assert(refs@.subrange(0, refs.len() as int) == refs@);
            let e2 = self.edges();
            let rs = refs@.to_set();
            assert(linked(e1, key, rs, e2)) by {
                assert forall|a: ParamKey, b: ParamKey| #[trigger]
                    e2.contains((a, b)) <==> e1.contains((a, b)) || (b == key && rs.contains(a)) by {
                }
            }
            assert forall|r: ParamKey| rs.contains(r) implies !reaches(e1, key, r) by {
                let m = choose|m: int| 0 <= m < refs@.len() && refs@[m] == r;
                assert(!reaches(e0, key, refs[m]));
                if reaches(e1, key, r) {
                    lemma_reaches_mono(e1, e0, key, r);
                }
            }
            lemma_link_keeps_acyclic(e1, key, rs, e2);
            assert(edges_within(e2, keys)) by {
                assert forall|a: ParamKey, b: ParamKey|
                    #[trigger] e2.contains((a, b))
                    implies keys.contains(a) && keys.contains(b) by {
                    if !e0.contains((a, b)) {
                        let m = choose|m: int| 0 <= m < refs@.len() && refs@[m] == a;
                        assert(old(self).has_param(refs[m]));
                    }
                }
            }
        }
    }

    /// Some parameter of a node in `s` is `q` or is depended on by `q`,
    /// directly or through other parameters.
    pub open spec fn reads_from(self, s: Set<u64>, q: ParamKey) -> bool {
        exists|d: ParamKey| s.contains(d.0) && self.has_param(d) && #[trigger] reaches(self.edges(), d, q)
    }

    /// What `delete` leaves behind where it succeeds: the node `id` and all
    /// nodes below it are gone, and with them every dependency edge that
    /// touches one of their parameters; each remaining parameter that read
    /// from a deleted one, directly or through others, is dirty; nothing else
    /// has changed.
    pub open spec fn deleted(old_net: Network, new_net: Network, id: GenericNodeId) -> bool {
        let gone = subtree(old_net.nodes(), id.raw);
        &&& pruned(old_net.nodes(), new_net.nodes(), id)
        &&& new_net.edges() == old_net.edges().filter(|e: Edge| !gone.contains(e.0.0) && !gone.contains(e.1.0))
        &&& new_net.graph_keys() == old_net.graph_keys().filter(|k: ParamKey| !gone.contains(k.0))
        &&& forall|q: ParamKey| #[trigger]
            new_net.has_param(q) ==> new_net.param(q) == (Param {
                dirty: old_net.param(q).dirty || old_net.reads_from(gone, q),
                ..old_net.param(q)
            })
        &&& new_net.root_id() == old_net.root_id()
        &&& new_net.script_runs() == old_net.script_runs()
        &&& new_net.payloads() == old_net.payloads().remove_keys(gone)
        &&& new_net.retired() == old_net.retired().union(gone)
        &&& new_net.deletions() == (if old_net.deletions() + gone.len() <= u64::MAX {
            (old_net.deletions() + gone.len()) as u64
        } else {
            u64::MAX
        })
        &&& new_net.params_made() == old_net.params_made()
    }

    /// Deletes a node together with all nodes below it. Their identifiers
    /// are retired: no node that is created later gets one of them.
    ///
    /// The parameters of the deleted nodes leave the dependency graph with
    /// all their edges, and what depended on them becomes dirty. Fails with
    /// `IdNotFound` where `id` names no live node, and with `Other` where it
    /// names the root, which cannot be deleted; the network is then
    /// unchanged.
    pub fn delete(&mut self, id: GenericNodeId) -> (res: Result<(), Error>)
        requires
            old(self).wf(),
        ensures
            final(self).wf(),
            res == (if !old(self).has_node(id) {
                Err::<(), Error>(Error::IdNotFound)
            } else if id == old(self).root_id() {
                Err::<(), Error>(Error::Other)
            } else {
                Ok::<(), Error>(())
            }),
            res is Err ==> *final(self) == *old(self),
            res is Ok ==> Self::deleted(*old(self), *final(self), id),
    {
        let up = match self.node(id) {
            Ok(rec) => match rec.parent {
                Some(up) => up,
                None => {
                    return Err(Error::Other);
                },
            },
            Err(e) => {
                return Err(e);
            },
        };
        let ghost n0 = self.nodes();
        let ghost e0 = self.edges();
        let ghost k0 = self.graph_keys();
        let ghost root = self.root.raw;
        let ghost s = subtree(n0, id.raw);
        assert(id.raw != root);
        let gone = cut_subtree(&mut self.hierarchy, id.raw, Ghost(root));
        let ghost n1 = self.nodes();
        proof {
            assert forall|j: int| 0 <= j < gone@.len() implies is_key((#[trigger] gone@[j]).0) by {
                assert(s.contains(gone@[j].0));
            }
            assert(gone_keys(gone@) =~= s) by {
                assert forall|k: u64| s.contains(k) implies gone_keys(gone@).contains(k) by {
                    let j = choose|j: int| 0 <= j < gone@.len() && (#[trigger] gone@[j]).0 == k;
                }
                assert forall|k: u64| gone_keys(gone@).contains(k) implies s.contains(k) by {
                    let j = choose|j: int| 0 <= j < gone@.len() && (#[trigger] gone@[j]).0 == k;
                    assert(s.contains(gone@[j].0));
                }
            }
        }
        drop_payloads(&mut self.data, &gone);
        proof {
            lemma_list_len(n0, s, gone@);
            vstd::set_lib::lemma_len_union(old(self).retired(), s);
            vstd::set_lib::lemma_set_union_finite_iff(old(self).retired(), s);
        }
        let count = gone.len() as u64;
        self.gone = if self.gone > u64::MAX - count {
            u64::MAX
        } else {
            self.gone + count
        };
        let doomed = doomed_keys(&gone);
        proof {
            assert forall|key: ParamKey|
                #[trigger] doomed@.contains(key) <==> s.contains(key.0) && old(self).has_param(key) by {
                if is_doomed(gone@, key) {
                    let j = choose|j: int|
                        0 <= j < gone@.len() && (#[trigger] gone@[j]).0 == key.0 && key.1 < gone@[j].1.params@.len();
                    assert(s.contains(gone@[j].0));
                }
                if s.contains(key.0) && old(self).has_param(key) {
                    let j = choose|j: int| 0 <= j < gone@.len() && (#[trigger] gone@[j]).0 == key.0;
                    assert(gone@[j].1 == n0[gone@[j].0]);
                }
            }
            assert forall|i: int|
                0 <= i < doomed.len()
                implies k0.contains(#[trigger] doomed[i]) by {
                assert(doomed@.contains(doomed[i]));
                assert(old(self).has_param(doomed[i]));
            }
        }
        let stale = forward_closure(&self.depgraph, &doomed);
        drop_vertices(&mut self.depgraph, &doomed);
        taint(&mut self.hierarchy, &stale);
        let ghost n2 = self.nodes();
        proof {
            assert(n0.dom().contains(up.raw));
            assert(!s.contains(up.raw)) by {
                if is_under(n0, up.raw, id.raw) {
                    lemma_under_depth(n0, up.raw, id.raw);
                }
            }
            assert(n1.dom().contains(up.raw));
            assert(n1[up.raw] == n0[up.raw]);
            assert(n2.dom().contains(up.raw));
            assert(n2[up.raw].children == n1[up.raw].children);
        }
        detach(&mut self.hierarchy, up.raw, id);
        proof {
            let n3 = self.nodes();
            let e3 = self.edges();
            let k3 = self.graph_keys();
            assert(n1.dom() =~= n0.dom().difference(s));
            assert(!s.contains(up.raw)) by {
                if is_under(n0, up.raw, id.raw) {
                    lemma_under_depth(n0, up.raw, id.raw);
                }
            }
            assert(n0[up.raw].children@.contains(id));
            assert(n2[up.raw].children@ == n0[up.raw].children@);
            assert(pruned(n0, n3, id)) by {
                assert(n3.dom() =~= n0.dom().difference(s));
                assert forall|k: u64| #[trigger] n3.dom().contains(k) implies {
                    &&& n3[k].name == n0[k].name
                    &&& n3[k].parent == n0[k].parent
                    &&& n3[k].depth == n0[k].depth
                    &&& n3[k].outputs == n0[k].outputs
                    &&& n3[k].params@.len() == n0[k].params@.len()
                    &&& if n0[id.raw].parent == Some(GenericNodeId { raw: k }) {
                        exists|i: int|
                            0 <= i < n0[k].children@.len() && #[trigger] n0[k].children@[i] == id
                                && n3[k].children@ == n0[k].children@.remove(i)
                    } else {
                        n3[k].children@ == n0[k].children@
                    }
                } by {
                    assert(n1.dom().contains(k));
                    assert(n1[k] == n0[k]);
                    assert(n2[k].children == n1[k].children);
                    if k != up.raw {
                        assert(n3[k] == n2[k]);
                    }
                }
            }
            lemma_pruned_tree(n0, n3, root, id);
            vstd::set_lib::lemma_len_subset(n3.dom(), n0.dom());
            assert(e3 =~= e0.filter(|e: Edge| !s.contains(e.0.0) && !s.contains(e.1.0))) by {
                assert forall|e: Edge| e0.contains(e) implies (doomed@.contains(e.0) <==> s.contains(e.0.0)) && (doomed@.contains(e.1) <==> s.contains(e.1.0)) by {
                    assert(e0.contains((e.0, e.1)));
                    assert(k0.contains(e.0) && k0.contains(e.1));
                }
            }
            assert(k3 =~= k0.filter(|k: ParamKey| !s.contains(k.0)));
            assert(k3 =~= param_keys(n3)) by {
                assert forall|k: ParamKey| k3.contains(k) <==> param_keys(n3).contains(k) by {
                    if n3.dom().contains(k.0) {
                        assert(n3[k.0].params@.len() == n0[k.0].params@.len());
                    }
                }
            }
            assert(k3.subset_of(k0));
            vstd::set_lib::lemma_len_subset(k3, k0);
            assert(e3.subset_of(e0));
            lemma_acyclic_mono(e3, e0);
            assert(edges_within(e3, k3)) by {
                assert forall|a: ParamKey, b: ParamKey|
                    #[trigger] e3.contains((a, b))
                    implies k3.contains(a) && k3.contains(b) by {
                    assert(e0.contains((a, b)));
                }
            }
            assert forall|q: ParamKey| #[trigger] self.has_param(q) implies self.param(q) == (Param {
                dirty: old(self).param(q).dirty || old(self).reads_from(s, q),
                ..old(self).param(q)
            }) by {
                assert(n3.dom().contains(q.0));
                assert(n1.dom().contains(q.0));
                assert(n1[q.0] == n0[q.0]);
                assert(n3[q.0].params == n2[q.0].params);
                assert(n2[q.0].params@[q.1 as int] == (if stale@.contains((q.0, q.1 as int as usize)) {
                    Param { dirty: true, ..n1[q.0].params@[q.1 as int] }
                } else {
                    n1[q.0].params@[q.1 as int]
                }));
                assert((q.0, q.1 as int as usize) == q);
                if stale@.contains(q) {
                    let w = choose|w: int|
                        0 <= w < doomed@.len() && #[trigger] reaches(e0, doomed@[w], q);
                    assert(doomed@.contains(doomed@[w]));
                    assert(old(self).reads_from(s, q));
                }
                if old(self).reads_from(s, q) {
                    let d = choose|d: ParamKey|
                        s.contains(d.0) && old(self).has_param(d) && #[trigger] reaches(e0, d, q);
                    assert(doomed@.contains(d));
                    let w = choose|w: int| 0 <= w < doomed@.len() && doomed@[w] == d;
                    assert(reaches(e0, doomed@[w], q));
                    assert(reaches_from(e0, doomed@, q));
                }
            }
            assert forall|e: Edge| #[trigger] self.edges().contains(e) && self.param(e.0).dirty
                implies self.param(e.1).dirty by {
                assert(e3.contains((e.0, e.1)));
                assert(k3.contains(e.0) && k3.contains(e.1));
                assert(self.has_param(e.0) && self.has_param(e.1));
                assert(e0.contains(e));
                if !old(self).param(e.0).dirty {
                    let d = choose|d: ParamKey|
                        s.contains(d.0) && old(self).has_param(d) && #[trigger] reaches(e0, d, e.0);
                    lemma_reaches_step(e0, d, e.0, e.1);
                }
            }
        }
        Ok(())
    }

    /// `b` holds the same data as `a`: the same nodes with the same records,
    /// the same dependency graph, the same root and count of script runs.
    /// Payloads cannot be copied: `b` holds none.
    pub open spec fn same_net(a: Network, b: Network) -> bool {
        &&& same_entries(a.nodes(), b.nodes())
        &&& b.payloads() == Map::<u64, Payload>::empty()
        &&& b.history() == a.history()
        &&& b.edges() == a.edges()
        &&& b.graph_keys() == a.graph_keys()
        &&& b.root_id() == a.root_id()
        &&& b.script_runs() == a.script_runs()
    }

    /// A network that holds the same data as a well-formed one is well
    /// formed, and has the same parameters.
    pub proof fn lemma_same_net_wf(a: Network, b: Network)
        requires
            a.sound(),
            Self::same_net(a, b),
        ensures
            b.sound(),
            forall|q: ParamKey| b.has_param(q) == a.has_param(q),
            forall|q: ParamKey| #[trigger] a.has_param(q) ==> same_param(a.param(q), b.param(q)),
    {
        let before = a.nodes();
        let after = b.nodes();
        let root = a.root_id().raw;
        assert forall|k: u64|
            #[trigger] after.dom().contains(k)
            implies same_record(before[k], after[k]) by {
            assert(before.dom().contains(k));
        }
        assert forall|k: u64| #[trigger] after.dom().contains(k) && k != root implies {
            &&& after[k].parent is Some
            &&& after.dom().contains(after[k].parent->0.raw)
            &&& after[after[k].parent->0.raw].children@.contains(GenericNodeId { raw: k })
            &&& after[k].depth@ == after[after[k].parent->0.raw].depth@ + 1
        } by {
            assert(before.dom().contains(k));
            let up = before[k].parent->0.raw;
            assert(before.dom().contains(up));
            assert(after.dom().contains(up));
        }
        assert forall|k: u64, i: int|
            after.dom().contains(k) && 0 <= i < after[k].children@.len() implies {
            let c = #[trigger] after[k].children@[i];
            &&& after.dom().contains(c.raw)
            &&& c.raw != root
            &&& after[c.raw].parent == Some(GenericNodeId { raw: k })
        } by {
            assert(before.dom().contains(k));
            let c = before[k].children@[i];
            assert(before.dom().contains(c.raw));
            assert(after.dom().contains(c.raw));
        }
        assert forall|k: u64|
            #[trigger] after.dom().contains(k)
            implies after[k].children@.no_duplicates() by {
            assert(before.dom().contains(k));
        }
        assert(param_keys(after) =~= param_keys(before)) by {
            assert forall|q: ParamKey|
                param_keys(after).contains(q) <==> param_keys(before).contains(q) by {
                if before.dom().contains(q.0) {
                    assert(same_record(before[q.0], after[q.0]));
                }
            }
        }
        assert forall|q: ParamKey| b.has_param(q) == a.has_param(q) by {
            if before.dom().contains(q.0) {
                assert(same_record(before[q.0], after[q.0]));
            }
        }
        assert forall|q: ParamKey|
            #[trigger] a.has_param(q)
            implies same_param(a.param(q), b.param(q)) by {
            assert(same_record(before[q.0], after[q.0]));
            assert(same_param(before[q.0].params@[q.1 as int], after[q.0].params@[q.1 as int]));
        }
    }

    /// Makes a copy of the network that holds the same data.
    pub fn duplicate(&self) -> (copy: Network)
        requires
            self.wf(),
        ensures
            copy.wf(),
            Self::same_net(*self, copy),
    {
        let copy = Network {
            hierarchy: arena_clone(&self.hierarchy),
            root: self.root,
            depgraph: graph_clone(&self.depgraph),
            runs: self.runs,
            data: store_new(),
            gone: self.gone,
            made: self.made,
        };
        proof {
            Self::lemma_same_net_wf(*self, copy);
        }
        copy
    }

    /// The two networks differ at most in their payloads.
    pub open spec fn same_but_payloads(a: Network, b: Network) -> bool {
        &&& b.nodes() == a.nodes()
        &&& b.edges() == a.edges()
        &&& b.graph_keys() == a.graph_keys()
        &&& b.root_id() == a.root_id()
        &&& b.script_runs() == a.script_runs()
        &&& b.history() == a.history()
    }

    /// Attaches a payload to a node, in place of the one that it may have,
    /// and returns the identifier of the node with the type of the payload.
    ///
    /// Fails with `IdNotFound`, and changes nothing, where `node_id` names
    /// no live node.
    pub fn set_data<T: 'static>(&mut self, node_id: GenericNodeId, data: T) -> (res: Result<NodeId<T>, Error>)
        requires
            old(self).wf(),
        ensures
            final(self).wf(),
            res is Ok <==> old(self).has_node(node_id),
            res matches Err(e) ==> e == Error::IdNotFound && *final(self) == *old(self),
            res matches Ok(id) ==> {
                &&& id.0 == node_id
                &&& Self::same_but_payloads(*old(self), *final(self))
                &&& final(self).payloads().dom() == old(self).payloads().dom().insert(node_id.raw)
                &&& forall|k: u64| #[trigger]
                    old(self).payloads().dom().contains(k) && k != node_id.raw
                        ==> final(self).payloads()[k] == old(self).payloads()[k]
            },
    {
        if !self.contains(node_id) {
            return Err(Error::IdNotFound);
        }
        let ghost before = self.payloads();
        assert(self.nodes().dom().contains(node_id.raw));
        assert forall|j: u64| before.dom().contains(j) && j != node_id.raw implies slot_of(j) != slot_of(
            node_id.raw,
        ) by {
            assert(self.nodes().dom().contains(j));
        }
        store_put(&mut self.data, node_id.raw, pack(data));
        assert(self.payloads().dom() =~= before.dom().insert(node_id.raw));
        Ok(NodeId(node_id, PhantomData))
    }

    /// Returns the payload of a node, where it is of the type that the
    /// identifier remembers.
    ///
    /// Fails with `IdNotFound` where the node has no payload, in particular
    /// where it is not live, and with `TypeError` where the payload is of
    /// another type.
    pub fn data<T: 'static>(&self, id: NodeId<T>) -> (res: Result<&T, Error>)
        ensures
            !(is_key(id.0.raw) && self.payloads().dom().contains(id.0.raw)) <==> res matches Err(
                Error::IdNotFound,
            ),
            res is Ok || res matches Err(Error::IdNotFound) || res matches Err(Error::TypeError),
    {
        if id.0.raw & 0x1_0000_0000 == 0 {
            return Err(Error::IdNotFound);
        }
        typed(
            match store_get(&self.data, id.0.raw) {
                Some(p) => Some(unpack::<T>(p)),
                None => None,
            },
        )
    }

    /// Tells whether a node has a payload.
    pub fn has_data(&self, node_id: GenericNodeId) -> (found: bool)
        ensures
            found == (is_key(node_id.raw) && self.payloads().dom().contains(node_id.raw)),
    {
        if node_id.raw & 0x1_0000_0000 == 0 {
            false
        } else {
            store_get(&self.data, node_id.raw).is_some()
        }
    }

    /// The payloads after a commit: those of the draft, and those that the
    /// network had for nodes that are still live and have none in the draft.
    pub open spec fn merged(mine: Map<u64, Payload>, theirs: Map<u64, Payload>, live: Set<u64>) -> Map<
        u64,
        Payload,
    > {
        Map::new(
            |k: u64| mine.dom().contains(k) || (theirs.dom().contains(k) && live.contains(k)),
            |k: u64|
                if mine.dom().contains(k) {
                    mine[k]
                } else {
                    theirs[k]
                },
        )
    }

    /// Takes over the payloads of `from` for the nodes that are live in this
    /// network and have no payload in it.
    pub(crate) fn adopt_payloads(&mut self, from: &mut Network)
        requires
            old(self).wf(),
        ensures
            final(self).wf(),
            Self::same_but_payloads(*old(self), *final(self)),
            final(self).payloads() == Self::merged(
                old(self).payloads(),
                old(from).payloads(),
                old(self).nodes().dom(),
            ),
    {
        let ghost mine = self.payloads();
        let ghost theirs = from.payloads();
        let ghost live = self.nodes().dom();
        let keys = self.node_keys();
        let mut j: usize = 0;
        assert(self.payloads() =~= Self::merged(mine, theirs, keys@.subrange(0, 0).to_set()));
        while j < keys.len()
            invariant
                j <= keys.len(),
                old(self).sound(),
                mine == old(self).payloads(),
                live == old(self).nodes().dom(),
                Self::same_but_payloads(*old(self), *self),
                forall|k: u64| keys@.contains(k) <==> live.contains(k),
                keys@.no_duplicates(),
                self.payloads() == Self::merged(mine, theirs, keys@.subrange(0, j as int).to_set()),
                forall|i: int|
                    j <= i < keys@.len() ==> (from.payloads().dom().contains(#[trigger] keys@[i])
                        <==> theirs.dom().contains(keys@[i])) && from.payloads()[keys@[i]] == theirs[keys@[i]],
            decreases keys.len() - j,
        {
            let ghost sa = keys@.subrange(0, j as int);
            let ghost sb = keys@.subrange(0, j + 1);
            let ghost a = sa.to_set();
            let ghost b = sb.to_set();
            let ghost cur = self.payloads();
            let ghost rest = from.payloads();
            let k = keys[j];
            proof {
                assert(keys@.contains(k));
                assert(live.contains(k));
                assert(sb == sa.push(k));
                assert forall|x: u64| b.contains(x) <==> a.contains(x) || x == k by {
                    if sb.contains(x) {
                        let i = choose|i: int| 0 <= i < sb.len() && sb[i] == x;
                        if i < j {
                            assert(sa[i] == x);
                        }
                    }
                    if sa.contains(x) {
                        let i = choose|i: int| 0 <= i < sa.len() && sa[i] == x;
                        assert(sb[i] == x);
                    }
                    if x == k {
                        assert(sb[j as int] == k);
                    }
                }
                assert(!a.contains(k)) by {
                    if sa.contains(k) {
                        let i = choose|i: int| 0 <= i < sa.len() && sa[i] == k;
                        assert(keys@[i] == keys@[j as int]);
                    }
                }
            }
            if store_get(&self.data, k).is_none() {
                match store_take(&mut from.data, k) {
                    Some(p) => {
                        proof {
                            assert forall|x: u64| cur.dom().contains(x) && x != k implies slot_of(x) != slot_of(
                                k,
                            ) by {
                                assert(live.contains(x));
                            }
                        }
                        store_put(&mut self.data, k, p);
                    },
                    None => {},
                }
            }
            proof {
                assert(self.payloads() =~= Self::merged(mine, theirs, b)) by {
                    assert(rest[k] == theirs[k]);
                    assert(rest.dom().contains(k) <==> theirs.dom().contains(k));
                }
                assert forall|i: int| j + 1 <= i < keys@.len() implies (from.payloads().dom().contains(
                    #[trigger] keys@[i],
                ) <==> theirs.dom().contains(keys@[i])) && from.payloads()[keys@[i]] == theirs[keys@[i]] by {
                    assert(keys@[i] != keys@[j as int]);
                }
                assert(self.payloads().dom().subset_of(live));
            }
            j += 1;
        }
        proof {
            assert(keys@.subrange(0, keys.len() as int) == keys@);
            assert(keys@.to_set() =~= live);
        }
    }

    /// Counts one more run of a script, up to `u64::MAX`.
    pub(crate) fn count_run(&mut self)
        ensures
            final(self).nodes() == old(self).nodes(),
            final(self).edges() == old(self).edges(),
            final(self).graph_keys() == old(self).graph_keys(),
            final(self).root_id() == old(self).root_id(),
            final(self).payloads() == old(self).payloads(),
            final(self).history() == old(self).history(),
            final(self).script_runs() == (if old(self).script_runs() < u64::MAX {
                (old(self).script_runs() + 1) as u64
            } else {
                old(self).script_runs()
            }),
    {
        if self.runs < u64::MAX {
            self.runs = self.runs + 1;
        }
    }

    /// Finds a walk along the dependency edges from the parameter `from` to
    /// the parameter `to`: a chain of parameters that begins with `from` and
    /// ends with `to`, in which each is read by the next. There is none
    /// exactly where `to` is not `from` and does not depend on it. A key
    /// that names no parameter reaches itself alone.
    pub fn walk_between(&self, from: ParamKey, to: ParamKey) -> (res: Option<Vec<ParamKey>>)
        requires
            self.sound(),
        ensures
            res is Some <==> reaches(self.edges(), from, to),
            res matches Some(walk) ==> is_walk(self.edges(), walk@) && walk@[0] == from && walk@.last()
                == to,
    {
        let mut starts: Vec<ParamKey> = Vec::new();
        starts.push(from);
        let found = forward_paths(&self.depgraph, &starts);
        proof {
            let e = self.edges();
            if reaches_from(e, starts@, to) {
                let w = choose|w: int|
                    0 <= w < starts@.len() && #[trigger] reaches(e, starts@[w], to);
                assert(starts@[w] == from);
            }
            if reaches(e, from, to) {
                assert(reaches(e, starts@[0], to));
            }
        }
        match position_of(&found.0, to) {
            Some(at) => {
                let walk = trace(&found.0, &found.1, at, Ghost(self.edges()), Ghost(starts@));
                proof {
                    let j = choose|j: int| 0 <= j < starts@.len() && starts@[j] == walk@[0];
                    assert(found.0@.contains(to));
                }
                Some(walk)
            },
            None => None,
        }
    }

    /// Lists the parameter `key` and every parameter that it depends on,
    /// directly or through others, as far as the dependency edges tell; each
    /// is listed once, `key` first.
    pub fn upstream(&self, key: ParamKey) -> (out: Vec<ParamKey>)
        requires
            self.sound(),
        ensures
            out@.no_duplicates(),
            forall|x: ParamKey| out@.contains(x) <==> reaches(oriented(self.edges(), true), key, x),
            forall|i: int| 0 <= i < out@.len() ==> self.has_param(#[trigger] out@[i]) || out@[i] == key,
    {
        let mut starts: Vec<ParamKey> = Vec::new();
        starts.push(key);
        let out = backward_closure(&self.depgraph, &starts);
        proof {
            let e = oriented(self.edges(), true);
            assert forall|x: ParamKey| out@.contains(x) <==> reaches(e, key, x) by {
                if reaches_from(e, starts@, x) {
                    let w = choose|w: int|
                        0 <= w < starts@.len() && #[trigger] reaches(e, starts@[w], x);
                    assert(starts@[w] == key);
                }
                if reaches(e, key, x) {
                    assert(reaches(e, starts@[0], x));
                }
            }
            assert forall|i: int|
                0 <= i < out@.len()
                implies self.has_param(#[trigger] out@[i]) || out@[i] == key by {
                if !self.graph_keys().contains(out@[i]) {
                    let j = choose|j: int| 0 <= j < starts@.len() && starts@[j] == out@[i];
                }
            }
        }
        out
    }

    /// Lists the parameters that the parameter `key` depends on directly,
    /// each once.
    pub fn dependencies(&self, key: ParamKey) -> (deps: Vec<ParamKey>)
        requires
            self.sound(),
        ensures
            deps@.no_duplicates(),
            forall|x: ParamKey| deps@.contains(x) <==> self.edges().contains((x, key)),
            forall|i: int| 0 <= i < deps.len() ==> self.has_param(#[trigger] deps[i]),
    {
        let deps = graph_predecessors(&self.depgraph, key);
        proof {
            assert forall|i: int|
                0 <= i < deps.len()
                implies self.has_param(#[trigger] deps[i]) by {
                assert(deps@.contains(deps[i]));
                assert(self.edges().contains((deps[i], key)));
                assert(self.graph_keys().contains(deps[i]));
            }
        }
        deps
    }

    /// Lists the raw keys of all live nodes, each once, in the order of
    /// their slots in the store.
    pub fn node_keys(&self) -> (keys: Vec<u64>)
        ensures
            keys@.no_duplicates(),
            forall|k: u64| keys@.contains(k) <==> self.nodes().dom().contains(k),
    {
        arena_keys(&self.hierarchy)
    }

    /// Returns the number of live nodes.
    pub fn node_count(&self) -> (n: usize)
        ensures
            n == self.nodes().dom().len(),
    {
        arena_len(&self.hierarchy)
    }
}

/// A handle on one node of a network, through which the node is edited.
pub struct Node<'a> {
    /// The network that holds the node.
    pub network: &'a mut Network,
    /// The identifier of the node.
    pub id: GenericNodeId,
}

/// A handle on the nodes below one node of a network.
pub struct Subnet<'a> {
    /// The network that holds the nodes.
    pub network: &'a mut Network,
    /// The identifier of the node above.
    pub parent_node_id: GenericNodeId,
}

impl<'a> Node<'a> {
    /// Returns the identifier of the node.
    pub fn id(&self) -> (id: GenericNodeId)
        ensures
            id == self.id,
    {
        self.id
    }

    /// Attaches a payload to the node, as `Network::set_data` does.
    pub fn set_data<T: 'static>(&mut self, data: T) -> (res: Result<NodeId<T>, Error>)
        requires
            old(self).network.wf(),
        ensures
            final(self).network.wf(),
            final(self).id == old(self).id,
            *final(final(self).network) == *final(old(self).network),
            res is Ok <==> old(self).network.has_node(old(self).id),
            res matches Err(e) ==> e == Error::IdNotFound && *final(self).network == *old(self).network,
            res matches Ok(id) ==> {
                &&& id.0 == old(self).id
                &&& Network::same_but_payloads(*old(self).network, *final(self).network)
                &&& final(self).network.payloads().dom() == old(self).network.payloads().dom().insert(
                    old(self).id.raw,
                )
                &&& forall|k: u64| #[trigger]
                    old(self).network.payloads().dom().contains(k) && k != old(self).id.raw
                        ==> final(self).network.payloads()[k] == old(self).network.payloads()[k]
            },
    {
        self.network.set_data(self.id, data)
    }

    /// Returns a handle on the nodes below this node.
    pub fn subnet(&mut self) -> (sub: Subnet<'_>)
        ensures
            sub.parent_node_id == old(self).id,
            *sub.network == *old(self).network,
            *final(self).network == *final(sub.network),
            final(self).id == old(self).id,
            *final(final(self).network) == *final(old(self).network),
    {
        Subnet { network: self.network, parent_node_id: self.id }
    }
}

impl<'a> Subnet<'a> {
    /// Creates a node named `name` below the node that the handle stands
    /// for, and returns a handle on it.
    ///
    /// Fails as `Network::create` does, and then changes nothing.
    pub fn new_node<'b>(&'b mut self, name: &str) -> (res: Result<Node<'b>, Error>)
        where 'a: 'b
        requires
            old(self).network.wf(),
        ensures
            final(self).parent_node_id == old(self).parent_node_id,
            *final(final(self).network) == *final(old(self).network),
            res is Ok <==> old(self).network.can_create(old(self).parent_node_id),
            match res {
                Ok(node) => {
                    &&& node.network.wf()
                    &&& node.network.has_node(node.id)
                    &&& Network::created(
                        *old(self).network,
                        *node.network,
                        old(self).parent_node_id,
                        name@,
                        node.id,
                    )
                    &&& *final(self).network == *final(node.network)
                },
                Err(e) => {
                    &&& *final(self).network == *old(self).network
                    &&& e == Error::IdNotFound <==> !old(self).network.has_node(old(self).parent_node_id)
                    &&& e == Error::Other <==> old(self).network.has_node(old(self).parent_node_id)
                },
            },
    {
        match self.network.create(self.parent_node_id, name) {
            Ok(id) => Ok(Node { network: self.network, id }),
            Err(e) => Err(e),
        }
    }
}

impl Network {
    /// Returns a handle on the root node of this network.
    pub fn root_node(&mut self) -> (node: Node<'_>)
        ensures
            node.id == old(self).root_id(),
            *node.network == *old(self),
            *final(self) == *final(node.network),
    {
        let id = self.root;
        Node { network: self, id }
    }
}

} // verus!
