use vstd::prelude::*;
use crate::depgraph::ParamKey;
use crate::error::Error;
use crate::expr::{Expr, Value};
use crate::network::{kind_name, Network, Subnet};
use crate::server::NodeParamInfo;

verus! {

/// Index of a parameter within the node that owns it.
pub type ParamId = usize;

/// A named slot of a node whose value is produced by an expression.
///
/// Parameters are only ever handed out by shared reference: the network that
/// owns them is the one place where they change.
pub struct Param {
    /// The name under which expressions refer to the parameter.
    pub name: String,
    /// The expression that produces the value.
    pub expr: Expr,
    /// The result of the last evaluation, a failure included.
    pub cached: Result<Value, Error>,
    /// Whether the cached result may be out of date.
    pub dirty: bool,
    /// The parameters that the expression read when its result was last
    /// cached.
    pub refs: Vec<ParamKey>,
    /// How the parameter is described to clients.
    pub info: NodeParamInfo,
    /// The place of the parameter in the order of creation: how many
    /// parameters the network had made before it.
    pub serial: u64,
}

/// Copies a list of parameter keys.
pub fn copy_keys(v: &Vec<ParamKey>) -> (res: Vec<ParamKey>)
    ensures
        res@ == v@,
{
    let mut res: Vec<ParamKey> = Vec::new();
    let mut i: usize = 0;
    while i < v.len()
        invariant
            i <= v.len(),
            res@ == v@.subrange(0, i as int),
        decreases v.len() - i,
    {
        res.push(v[i]);
        assert(res@ == v@.subrange(0, i + 1));
        i += 1;
    }
    assert(v@.subrange(0, v.len() as int) == v@);
    res
}

/// Two parameter records hold the same data.
pub open spec fn same_param(a: Param, b: Param) -> bool {
    &&& a.name@ == b.name@
    &&& a.expr == b.expr
    &&& a.cached == b.cached
    &&& a.dirty == b.dirty
    &&& a.refs@ == b.refs@
    &&& a.info == b.info
    &&& a.serial == b.serial
}

impl Clone for Param {
    fn clone(&self) -> (res: Self)
        ensures
            same_param(*self, res),
    {
        Param {
            name: self.name.clone(),
            expr: self.expr.clone(),
            cached: self.cached(),
            dirty: self.dirty,
            refs: copy_keys(&self.refs),
            info: self.info.clone(),
            serial: self.serial,
        }
    }
}

impl Param {
    /// A parameter that holds a constant: it has no expression to run and
    /// starts out clean.
    pub fn with_constant(name: &str, value: Value, info: NodeParamInfo, serial: u64) -> (p: Param)
        ensures
            p.serial == serial,
            p.name@ == name@,
            p.expr.source() == Seq::<char>::empty(),
            !p.dirty,
            p.cached == Ok::<Value, Error>(value),
            p.refs@ == Seq::<ParamKey>::empty(),
            p.info == info,
    {
        Param {
            name: String::from_str(name),
            expr: Expr::empty(),
            cached: Ok(value),
            dirty: false,
            refs: Vec::new(),
            info,
            serial,
        }
    }

    /// Creates a parameter that just returns a constant, on the node that
    /// the handle stands for, and returns its index; see
    /// `Network::add_param`.
    pub fn new_constant(subnet: Subnet, name: &str, v: Value) -> (res: Result<ParamId, Error>)
        requires
            subnet.network.wf(),
        ensures
            final(subnet.network).wf(),
            res == (if old(subnet.network).has_node(subnet.parent_node_id) {
                Ok::<ParamId, Error>(
                    old(subnet.network).nodes()[subnet.parent_node_id.raw].params@.len() as usize,
                )
            } else {
                Err::<ParamId, Error>(Error::IdNotFound)
            }),
            res is Err ==> *final(subnet.network) == *old(subnet.network),
            res is Ok ==> {
                let p = final(subnet.network).param((subnet.parent_node_id.raw, res->Ok_0));
                &&& Network::param_added(
                    *old(subnet.network),
                    *final(subnet.network),
                    subnet.parent_node_id,
                    p,
                )
                &&& p.name@ == name@
                &&& p.expr.source() == Seq::<char>::empty()
                &&& p.cached == Ok::<Value, Error>(v)
                &&& !p.dirty
                &&& p.refs@ == Seq::<ParamKey>::empty()
                &&& p.info.ty@ == kind_name(v)
                &&& !p.info.show_connector
            },
    {
        subnet.network.add_param(subnet.parent_node_id, name, v)
    }

    /// Returns the name of the parameter.
    pub fn name(&self) -> (s: &str)
        ensures
            s@ == self.name@,
    {
        self.name.as_str()
    }

    /// Returns the expression of the parameter.
    pub fn expression(&self) -> (e: &Expr)
        ensures
            *e == self.expr,
    {
        &self.expr
    }

    /// Tells whether the cached result may be out of date.
    pub fn is_dirty(&self) -> (d: bool)
        ensures
            d == self.dirty,
    {
        self.dirty
    }

    /// Returns a copy of the result of the last evaluation.
    pub fn cached(&self) -> (r: Result<Value, Error>)
        ensures
            r == self.cached,
    {
        match &self.cached {
            Ok(v) => Ok(v.clone()),
            Err(e) => Err(e.clone()),
        }
    }
}

} // verus!
