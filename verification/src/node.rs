//! The node capability: any value that can give a stable name and be
//! duplicated into several ring slots.
//!
//! The ring stores an independent copy of the node value at every virtual-node
//! slot it creates, and finds the slots again by name; both capabilities carry
//! their contract here. `spec_name` is the name as a mathematical value, so
//! that two calls of `name` on the same node are known to agree.

use vstd::prelude::*;

verus! {

/// A value that can stand as a node on the ring.
///
/// The name must be stable (the same for every call on the same value) and
/// unique per logical node; duplication must preserve it.
pub trait Node: Sized {
    /// The node's name, as a mathematical value.
    spec fn spec_name(&self) -> Seq<char>;

    /// The node's name.
    fn name(&self) -> (r: String)
        ensures
            r@ == self.spec_name(),
    ;

    /// An independent copy of this node, under the same name, to store in one
    /// ring slot.
    fn duplicate(&self) -> (r: Self)
        ensures
            r.spec_name() == self.spec_name(),
    ;
}

} // verus!
