use vstd::prelude::*;

verus! {

/// Execution context for render pass networks.
pub struct RenderPassContext;

/// Trait implemented by nodes that take part in a render pass.
pub trait RenderNode {

}

/// Trait implemented by render pass operations.
pub trait RenderOp {

}

/// Receives the geometry of one frame.
pub trait RenderGeometrySink {

}

/// What a render operation is given while it executes.
pub struct RenderExecContext {}

/// What a render node is given while it builds its operations.
pub struct RenderContext {}

} // verus!
