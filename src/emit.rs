use vstd::prelude::*;

verus! {

/// Renders a compiled machine as basic-block IR text: one entry function
/// holding the whole control-flow graph, one physical block per block of the
/// graph, in the graph's order.
pub trait ToLlvmIr {
    fn to_llvm_ir(&self) -> String;
}

} // verus!
