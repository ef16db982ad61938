//! The node registry: a dispatch table from a node's declared type to the
//! capability that executes it. Populated once at startup and read-only
//! thereafter.

use vstd::prelude::*;
use crate::model::Item;

verus! {

/// Read-only run metadata handed to a capability at dispatch.
pub struct RunContext {
    pub execution_id: String,
    pub workflow_id: String,
    pub node_id: String,
    pub canceled: bool,
}

/// The executable behavior bound to a node type. A capability turns the
/// node's input items into one item sequence per output slot, or reports
/// an error message. Implementations live outside the engine; nothing is
/// assumed about what they return.
pub trait Capability {
    fn execute(
        &self,
        input: &Vec<Item>,
        parameters: &Vec<(String, String)>,
        context: &RunContext,
    ) -> Result<Vec<Vec<Item>>, String>;
}

/// A cooperative cancellation signal, polled by the engine between node
/// dispatches.
pub trait CancelToken {
    fn is_canceled(&self) -> bool;
}

/// A token that never cancels.
pub struct NeverCancel;

impl CancelToken for NeverCancel {
    fn is_canceled(&self) -> (r: bool)
        ensures
            !r,
    {
        false
    }
}

/// Some registry entry is for this type name.
pub open spec fn registry_has<C>(entries: Seq<(String, C)>, t: Seq<char>) -> bool {
    exists|i: int| 0 <= i < entries.len() && (#[trigger] entries[i]).0@ == t
}

/// Maps each node type name to its capability. The first registration of a
/// name wins.
pub struct NodeRegistry<C> {
    pub entries: Vec<(String, C)>,
}

impl<C> NodeRegistry<C> {
    /// An empty registry.
    pub fn new() -> (r: NodeRegistry<C>)
        ensures
            r.entries@.len() == 0,
    {
        NodeRegistry { entries: Vec::new() }
    }

    /// Binds a node type name to a capability.
    pub fn register(&mut self, node_type: String, capability: C)
        ensures
            final(self).entries@ == old(self).entries@.push((node_type, capability)),
    {
        self.entries.push((node_type, capability));
    }

    /// The capability of the first registration under this type name, or
    /// nothing on a registry miss, so duplicate registrations cannot
    /// change an established binding.
    pub fn resolve(&self, node_type: &String) -> (r: Option<&C>)
        ensures
            match r {
                Option::Some(c) => exists|i: int|
                    {
                        &&& 0 <= i < self.entries@.len()
                        &&& (#[trigger] self.entries@[i]).0@ == node_type@
                        &&& *c == self.entries@[i].1
                        &&& forall|j: int| 0 <= j < i ==> (#[trigger] self.entries@[j]).0@ != node_type@
                    },
                Option::None => !registry_has(self.entries@, node_type@),
            },
    {
        let mut i: usize = 0;
        while i < self.entries.len()
            invariant
                0 <= i <= self.entries@.len(),
                forall|j: int| 0 <= j < i ==> (#[trigger] self.entries@[j]).0@ != node_type@,
            decreases self.entries@.len() - i,
        {
            if self.entries[i].0.eq(node_type) {
                return Some(&self.entries[i].1);
            }
            i += 1;
        }
        None
    }
}

} // verus!
