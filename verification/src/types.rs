use vstd::prelude::*;

verus! {

/// Handle of a node: its position in the node storage of the tree that created it.
///
/// Nodes are never removed or reordered, so a handle stays valid for as long as
/// its tree lives. It means nothing to any other tree.
pub type NodeId = usize;

} // verus!
