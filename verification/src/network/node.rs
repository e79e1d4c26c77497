use vstd::prelude::*;
use crate::network::NodeHierarchy;

verus! {

/// What every kind of node can tell of itself.
pub trait NodeOps {
    /// Returns the name of the node.
    fn name(&self) -> &str;

    /// Returns the display name of the node. It is what `name` returns,
    /// unless a kind of node has another name to show.
    fn display_node(&self) -> (s: &str)
        default_ensures
            call_ensures(Self::name, (self,), s),
    {
        self.name()
    }
}

impl NodeOps for NodeHierarchy {
    fn name(&self) -> (s: &str)
        ensures
            s@ == self.name@,
    {
        self.name.as_str()
    }
}

} // verus!
